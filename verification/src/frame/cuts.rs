//! Input that is given to a compression context in pieces.
use vstd::prelude::*;
use super::compress::{
    begun, crc_size, frame_header, law_update_succeeds, lemma_block_len, settled_preferences,
    BlockCompressMode, Encoder,
};
use super::{block_size, bound_internal, compress_bound_spec, Error, Preferences, Res};

verus! {

/// Input for an update, the kind of blocks it asks for, and the room that it is
/// given.
#[verifier::ext_equal]
pub struct Piece {
    pub src: Seq<u8>,
    pub mode: BlockCompressMode,
    pub room: int,
}

/// Whether all updates ask for the same kind of blocks.
pub open spec fn of_kind(pieces: Seq<Piece>, mode: BlockCompressMode) -> bool {
    forall|i: int| 0 <= i < pieces.len() ==> (#[trigger] pieces[i]).mode == mode
}

/// The input of several updates.
pub open spec fn spliced(pieces: Seq<Piece>) -> Seq<u8>
    decreases pieces.len(),
{
    if pieces.len() == 0 {
        Seq::empty()
    } else {
        pieces[0].src + spliced(pieces.skip(1))
    }
}

/// What several updates write, one after the other, and the context after them.
pub open spec fn updates(e: Encoder, pieces: Seq<Piece>, little: bool) -> (Res<Seq<u8>>, Encoder)
    decreases pieces.len(),
{
    if pieces.len() == 0 {
        (Ok(Seq::empty()), e)
    } else {
        match e.updated(pieces[0].src, pieces[0].mode, pieces[0].room, little) {
            (Err(x), e1) => (Err(x), e1),
            (Ok(head), e1) => match updates(e1, pieces.skip(1), little) {
                (Err(x), e2) => (Err(x), e2),
                (Ok(rest), e2) => (Ok(head + rest), e2),
            },
        }
    }
}

proof fn lemma_of_kind(pieces: Seq<Piece>, mode: BlockCompressMode)
    requires
        of_kind(pieces, mode),
        pieces.len() > 0,
    ensures
        of_kind(pieces.skip(1), mode),
{
    assert forall|i: int| 0 <= i < pieces.skip(1).len() implies (#[trigger] pieces.skip(1)[i]).mode
        == mode by {
        assert(pieces.skip(1)[i] == pieces[i + 1]);
    }
}

/// What waits, and how much input was counted, does not matter to the blocks
/// that input is cut into.
proof fn lemma_blocks_alike(e: Encoder, waiting: Seq<u8>, total: u64, data: Seq<u8>, mode: BlockCompressMode, little: bool)
    ensures
        ({
            let e1 = Encoder { buffered: waiting, total, ..e };
            let (b, f) = e.blocks(data, mode, little);
            e1.blocks(data, mode, little) == (b, Encoder { total, ..f })
        }),
    decreases data.len(),
{
    reveal(Encoder::attempt);
    reveal(Encoder::block_in);
    reveal(Encoder::after_in);
    if 0 < e.block <= data.len() {
        let chunk = data.take(e.block);
        let f = e.after(chunk, mode, little);
        lemma_blocks_alike(f, f.buffered, total, data.skip(e.block), mode, little);
    }
}

/// Cutting two pieces of input one after the other comes to cutting both at
/// once.
proof fn lemma_blocks_joined(e: Encoder, x: Seq<u8>, y: Seq<u8>, mode: BlockCompressMode, little: bool)
    requires
        e.block > 0,
        !e.prefs.auto_flush,
    ensures
        ({
            let (b1, e1) = e.blocks(x, mode, little);
            let (b2, e2) = e1.blocks(e1.buffered + y, mode, little);
            &&& e.blocks(x + y, mode, little) == (b1 + b2, e2)
            &&& e1.block == e.block && e1.prefs == e.prefs && e1.stage == e.stage && e1.mode
                == e.mode && e1.total == e.total
            &&& e1.buffered.len() < e1.block
        }),
    decreases x.len(),
{
    let (b1, e1) = e.blocks(x, mode, little);
    let (b2, e2) = e1.blocks(e1.buffered + y, mode, little);
    if e.block <= x.len() {
        let chunk = x.take(e.block);
        let f = e.after(chunk, mode, little);
        assert(f.block == e.block && f.prefs == e.prefs && f.stage == e.stage && f.mode == e.mode
            && f.total == e.total) by {
            reveal(Encoder::after_in);
        }
        lemma_blocks_joined(f, x.skip(e.block), y, mode, little);
        assert((x + y).take(e.block) =~= chunk);
        assert((x + y).skip(e.block) =~= x.skip(e.block) + y);
        let b = e.block_for(chunk, mode, little);
        let more = f.blocks(x.skip(e.block), mode, little).0;
        assert(b + (more + b2) =~= (b + more) + b2);
    } else {
        lemma_blocks_alike(e, x, e.total, x + y, mode, little);
        assert(e1 =~= (Encoder { buffered: x, total: e.total, ..e }));
        assert(Seq::<u8>::empty() + b2 =~= b2);
        let f = e.blocks(x + y, mode, little).1;
        assert(f.total == e.total) by {
            lemma_total(e, x + y, mode, little);
        }
        assert(f =~= (Encoder { total: e.total, ..f }));
    }
}

proof fn lemma_total(e: Encoder, data: Seq<u8>, mode: BlockCompressMode, little: bool)
    ensures
        e.blocks(data, mode, little).1.total == e.total,
    decreases data.len(),
{
    reveal(Encoder::after_in);
    if 0 < e.block <= data.len() {
        lemma_total(e.after(data.take(e.block), mode, little), data.skip(e.block), mode, little);
    }
}

/// An update that succeeds without a change of kind writes the blocks that its
/// input is cut into.
proof fn lemma_plain_update(e: Encoder, src: Seq<u8>, mode: BlockCompressMode, room: int, little: bool)
    requires
        e.stage == 1,
        block_size(e.prefs.frame_info.block_size_id) == Some(e.block),
        e.buffered.len() < e.block,
        e.mode == mode,
        e.updated(src, mode, room, little).0 is Ok,
    ensures
        ({
            let (bytes, f) = e.blocks(e.buffered + src, mode, little);
            e.updated(src, mode, room, little) == (
                Ok::<Seq<u8>, Error>(bytes),
                Encoder { total: (e.total + src.len()) as u64, ..f },
            )
        }),
{
    law_update_succeeds(e, src, mode, room, little);
}

/// What a context writes does not depend on how its input is cut into updates:
/// several that succeed write what a single one does, and leave the context in
/// the same state.
pub proof fn law_cut_freely(e: Encoder, pieces: Seq<Piece>, mode: BlockCompressMode, room: int, little: bool)
    requires
        e.stage == 1,
        block_size(e.prefs.frame_info.block_size_id) == Some(e.block),
        e.buffered.len() < e.block,
        !e.prefs.auto_flush,
        e.mode == mode,
        of_kind(pieces, mode),
        e.total + spliced(pieces).len() <= u64::MAX,
        updates(e, pieces, little).0 is Ok,
        e.updated(spliced(pieces), mode, room, little).0 is Ok,
    ensures
        updates(e, pieces, little) == e.updated(spliced(pieces), mode, room, little),
{
    lemma_cut_freely(e, pieces, mode, little);
    lemma_plain_update(e, spliced(pieces), mode, room, little);
}

proof fn lemma_cut_freely(e: Encoder, pieces: Seq<Piece>, mode: BlockCompressMode, little: bool)
    requires
        e.stage == 1,
        block_size(e.prefs.frame_info.block_size_id) == Some(e.block),
        e.buffered.len() < e.block,
        !e.prefs.auto_flush,
        e.mode == mode,
        of_kind(pieces, mode),
        e.total + spliced(pieces).len() <= u64::MAX,
        updates(e, pieces, little).0 is Ok,
    ensures
        ({
            let src = spliced(pieces);
            let (bytes, f) = e.blocks(e.buffered + src, mode, little);
            updates(e, pieces, little) == (
                Ok::<Seq<u8>, Error>(bytes),
                Encoder { total: (e.total + src.len()) as u64, ..f },
            )
        }),
    decreases pieces.len(),
{
    let b = e.buffered;
    if pieces.len() == 0 {
        assert(b + Seq::<u8>::empty() =~= b);
        assert(e =~= (Encoder { buffered: b, total: (e.total + 0) as u64, ..e }));
    } else {
        let x = pieces[0].src;
        let later = pieces.skip(1);
        let y = spliced(later);
        let total = (e.total + x.len()) as u64;
        assert(pieces[0].mode == mode);
        lemma_plain_update(e, x, mode, pieces[0].room, little);
        lemma_blocks_joined(e, b + x, y, mode, little);
        let (b1, f1) = e.blocks(b + x, mode, little);
        let e1 = Encoder { total, ..f1 };
        lemma_of_kind(pieces, mode);
        lemma_cut_freely(e1, later, mode, little);
        lemma_blocks_alike(f1, f1.buffered, total, f1.buffered + y, mode, little);
        assert(b + x + y =~= b + (x + y));
    }
}

/// Whether each update has the room that the bound for its input asks for.
pub open spec fn roomy(pieces: Seq<Piece>, p: Preferences) -> bool {
    forall|i: int|
        0 <= i < pieces.len() ==> (#[trigger] pieces[i]).room >= compress_bound_spec(
            pieces[i].src.len() as int,
            Some(&p),
        )
}

/// The bound for some input covers whatever waits before it.
proof fn lemma_bound_covers(n: int, p: Preferences, waiting: int)
    requires
        0 <= n,
        !p.auto_flush,
        block_size(p.frame_info.block_size_id) matches Some(bs) && 0 <= waiting < bs,
    ensures
        bound_internal(n, p, waiting) <= compress_bound_spec(n, Some(&p)),
        n == 0 ==> waiting + 4 + crc_size(p) + (if p.frame_info.content_checksum {
            8int
        } else {
            4
        }) <= compress_bound_spec(n, Some(&p)),
{
    reveal(bound_internal);
    let bs = block_size(p.frame_info.block_size_id)->0;
    let crc = crc_size(p);
    let a = (n + waiting) / bs;
    let b = (n + (bs - 1)) / bs;
    assert(usize::MAX >= bs);
    assert(0 <= a <= b) by (nonlinear_arith)
        requires
            a == (n + waiting) / bs,
            b == (n + (bs - 1)) / bs,
            0 <= n,
            0 <= waiting <= bs - 1,
    ;
    assert((4 + crc) * a <= (4 + crc) * b && bs * a <= bs * b) by (nonlinear_arith)
        requires
            0 <= a <= b,
            0 <= crc,
            0 < bs,
    ;
    if n == 0 {
        vstd::arithmetic::div_mod::lemma_fundamental_div_mod_converse(waiting, bs, 0, waiting);
        vstd::arithmetic::div_mod::lemma_fundamental_div_mod_converse(bs - 1, bs, 0, bs - 1);
        assert((4 + crc) * 0 == 0 && (4 + crc) * 1 == 4 + crc && bs * 0 == 0);
    }
}

/// Updates with room enough succeed.
proof fn lemma_roomy_updates(e: Encoder, pieces: Seq<Piece>, mode: BlockCompressMode, little: bool)
    requires
        e.stage == 1,
        block_size(e.prefs.frame_info.block_size_id) == Some(e.block),
        e.buffered.len() < e.block,
        !e.prefs.auto_flush,
        e.mode == mode,
        of_kind(pieces, mode),
        mode == BlockCompressMode::Compressed,
        roomy(pieces, e.prefs),
    ensures
        updates(e, pieces, little).0 is Ok,
    decreases pieces.len(),
{
    if pieces.len() > 0 {
        let c = pieces[0];
        let later = pieces.skip(1);
        assert(c.mode == mode);
        assert(pieces[0].room >= compress_bound_spec(c.src.len() as int, Some(&e.prefs)));
        lemma_bound_covers(c.src.len() as int, e.prefs, e.buffered.len() as int);
        law_update_succeeds(e, c.src, mode, c.room, little);
        lemma_blocks_joined(e, e.buffered + c.src, Seq::empty(), mode, little);
        lemma_of_kind(pieces, mode);
        assert forall|i: int| 0 <= i < later.len() implies (#[trigger] later[i]).room
            >= compress_bound_spec(later[i].src.len() as int, Some(&e.prefs)) by {
            assert(later[i] == pieces[i + 1]);
        }
        lemma_roomy_updates(e.updated(c.src, mode, c.room, little).1, later, mode, little);
    }
}

/// A frame that is begun, given its input by updates, and ended with `room`
/// bytes to write to: all that the calls write, and the context at the end.
pub open spec fn made(p: Preferences, loaded: Option<Seq<u8>>, slow: bool, pieces: Seq<Piece>, room: int, little: bool) -> (Res<Seq<u8>>, Encoder) {
    match updates(begun(p, loaded, slow, little), pieces, little) {
        (Err(x), e) => (Err(x), e),
        (Ok(body), e) => match e.ended(spliced(pieces), room, little) {
            (Err(x), f) => (Err(x), f),
            (Ok(tail), f) => (Ok(frame_header(settled_preferences(p)) + body + tail), f),
        },
    }
}

/// A whole frame does not depend on how its input is cut into updates, where
/// every call has the room that its bound asks for. Such a frame is written, and
/// fails only for a content size that was announced wrongly.
#[verifier::rlimit(30)]
pub proof fn law_cut_frame(p: Preferences, loaded: Option<Seq<u8>>, slow: bool, xs: Seq<Piece>, x_room: int, ys: Seq<Piece>, y_room: int, little: bool)
    requires
        block_size(p.frame_info.block_size_id) is Some,
        !p.auto_flush,
        of_kind(xs, BlockCompressMode::Compressed),
        of_kind(ys, BlockCompressMode::Compressed),
        roomy(xs, p),
        roomy(ys, p),
        x_room >= compress_bound_spec(0, Some(&p)),
        y_room >= compress_bound_spec(0, Some(&p)),
        spliced(xs) == spliced(ys),
        spliced(xs).len() <= u64::MAX,
    ensures
        made(p, loaded, slow, xs, x_room, little) == made(p, loaded, slow, ys, y_room, little),
        match made(p, loaded, slow, xs, x_room, little).0 {
            Ok(_) => true,
            Err(e) => {
                &&& e == Error::FrameSizeWrong
                &&& p.frame_info.content_size != 0
                &&& p.frame_info.content_size != spliced(xs).len()
            },
        },
{
    let e = begun(p, loaded, slow, little);
    let q = settled_preferences(p);
    let mode = BlockCompressMode::Compressed;
    let src = spliced(xs);
    assert(forall|n: int|
        compress_bound_spec(n, Some(&q)) == #[trigger] compress_bound_spec(n, Some(&p))) by {
        reveal(bound_internal);
    }
    lemma_roomy_updates(e, xs, mode, little);
    lemma_roomy_updates(e, ys, mode, little);
    lemma_cut_freely(e, xs, mode, little);
    lemma_cut_freely(e, ys, mode, little);
    lemma_blocks_joined(e, e.buffered + src, Seq::empty(), mode, little);
    let f = updates(e, xs, little).1;
    lemma_bound_covers(0, q, f.buffered.len() as int);
    lemma_block_len(f, f.buffered, f.mode, little);
    reveal(Encoder::after_in);
}

} // verus!
