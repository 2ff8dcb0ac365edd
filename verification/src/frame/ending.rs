//! How frames are flushed and ended.
use vstd::prelude::*;
use super::compress::{begun, cost, lemma_block_len, space_in, BlockCompressMode, Encoder};
use super::cuts::{spliced, updates, Piece};
use super::{block_size, Error, Preferences};

verus! {

/// Whether a context is within a frame, with less than a block waiting.
spec fn within(e: Encoder) -> bool {
    &&& e.stage == 1
    &&& block_size(e.prefs.frame_info.block_size_id) == Some(e.block)
    &&& e.buffered.len() < e.block
}

proof fn lemma_blocks_within(e: Encoder, data: Seq<u8>, mode: BlockCompressMode, little: bool)
    requires
        within(e),
    ensures
        ({
            let f = e.blocks(data, mode, little).1;
            within(f) && f.prefs == e.prefs && f.total == e.total
        }),
    decreases data.len(),
{
    reveal(Encoder::after_in);
    if e.block <= data.len() {
        let f = e.after(data.take(e.block), mode, little);
        lemma_blocks_within(f, data.skip(e.block), mode, little);
    }
}

proof fn lemma_blocks_in_within(e: Encoder, data: Seq<u8>, left: int, mode: BlockCompressMode, little: bool)
    requires
        within(e),
        e.blocks_in(data, left, mode, little).0 is Some,
    ensures
        ({
            let f = e.blocks_in(data, left, mode, little).1;
            within(f) && f.prefs == e.prefs && f.total == e.total
        }),
    decreases data.len(),
{
    let n = e.next_len(data.len() as int);
    if 0 < n <= data.len() {
        let chunk = data.take(n);
        let space = space_in(n, left);
        let f = e.after_in(chunk, space, mode, little);
        let size = e.block_in(chunk, space, mode, little).len();
        assert(within(f) && f.prefs == e.prefs && f.total == e.total) by {
            reveal(Encoder::after_in);
        }
        lemma_blocks_in_within(f, data.skip(n), left - size, mode, little);
    }
}

/// An update that succeeds stays within the frame, and counts its input.
proof fn lemma_update_counts(e: Encoder, src: Seq<u8>, mode: BlockCompressMode, room: int, little: bool)
    requires
        within(e),
        e.updated(src, mode, room, little).0 is Ok,
    ensures
        ({
            let f = e.updated(src, mode, room, little).1;
            within(f) && f.prefs == e.prefs && f.total == (e.total + src.len()) as u64
        }),
{
    let (head, e0) = if e.mode != mode {
        e.flushed(room, little)
    } else {
        (Ok(Seq::empty()), e)
    };
    assert(within(e0) && e0.prefs == e.prefs && e0.total == e.total) by {
        reveal(Encoder::after_in);
    }
    let e1 = Encoder { mode, ..e0 };
    let data = e1.buffered + src;
    let left = room - head->Ok_0.len();
    if left < cost(e1.prefs, e1.block, (e1.buffered.len() + src.len()) as int) {
        lemma_blocks_in_within(e1, data, left, mode, little);
    } else {
        lemma_blocks_within(e1, data, mode, little);
    }
}

proof fn lemma_updates_count(e: Encoder, pieces: Seq<Piece>, little: bool)
    requires
        within(e),
        e.total + spliced(pieces).len() <= u64::MAX,
        updates(e, pieces, little).0 is Ok,
    ensures
        ({
            let f = updates(e, pieces, little).1;
            within(f) && f.prefs == e.prefs && f.total == e.total + spliced(pieces).len()
        }),
    decreases pieces.len(),
{
    if pieces.len() > 0 {
        let c = pieces[0];
        lemma_update_counts(e, c.src, c.mode, c.room, little);
        lemma_updates_count(e.updated(c.src, c.mode, c.room, little).1, pieces.skip(1), little);
    }
}

/// A frame whose content size was announced is ended with `FrameSizeWrong`
/// exactly where its updates were given another amount of input. What waits, the
/// end mark and the checksum are written all the same, and the frame is over:
/// the context takes no more input.
pub proof fn law_end_reports_size(p: Preferences, loaded: Option<Seq<u8>>, slow: bool, pieces: Seq<Piece>, content: Seq<u8>, room: int, little: bool)
    requires
        block_size(p.frame_info.block_size_id) is Some,
        spliced(pieces).len() <= u64::MAX,
        updates(begun(p, loaded, slow, little), pieces, little).0 is Ok,
        room >= updates(begun(p, loaded, slow, little), pieces, little).1.buffered.len() + 16,
    ensures
        ({
            let e = updates(begun(p, loaded, slow, little), pieces, little).1;
            let s = p.frame_info.content_size;
            let (r, f) = e.ended(content, room, little);
            let written = e.ending(content, room, little);
            let head = if e.buffered.len() > 0 {
                e.block_for(e.buffered, e.mode, little)
            } else {
                Seq::empty()
            };
            &&& r == Err::<Seq<u8>, Error>(Error::FrameSizeWrong) <==> s != 0 && s != spliced(
                pieces,
            ).len()
            &&& r == Err::<Seq<u8>, Error>(Error::FrameSizeWrong) || r == Ok::<Seq<u8>, Error>(
                written,
            )
            &&& written == head + e.trailer(content)
            &&& f.stage == 0
            &&& forall|src: Seq<u8>, mode: BlockCompressMode, more: int|
                #[trigger] f.updated(src, mode, more, little) == (
                    Err::<Seq<u8>, Error>(Error::CompressionStateUninitialized),
                    f,
                )
        }),
{
    let e0 = begun(p, loaded, slow, little);
    lemma_updates_count(e0, pieces, little);
    let e = updates(e0, pieces, little).1;
    lemma_block_len(e, e.buffered, e.mode, little);
    reveal(Encoder::after_in);
}

/// After a flush that succeeded nothing waits, so that another one succeeds with
/// nothing to write, whatever room it has.
pub proof fn law_flush_twice(e: Encoder, room: int, more: int, little: bool)
    requires
        e.flushed(room, little).0 is Ok,
    ensures
        ({
            let f = e.flushed(room, little).1;
            &&& f.buffered.len() == 0
            &&& f.flushed(more, little) == (Ok::<Seq<u8>, Error>(Seq::empty()), f)
        }),
{
    reveal(Encoder::after_in);
}

} // verus!
