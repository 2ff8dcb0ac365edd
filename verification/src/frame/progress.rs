//! Calls of the decoder get on: given input and room, they take some of the
//! one or fill some of the other.
use vstd::prelude::*;
use super::decoder::{called, entered, in_bounds, lemma_step, Act, DStage, Decoder, Turn};

verus! {

/// Whether a later turn of a call has taken no less input and given no less
/// output.
pub open spec fn no_less(t: Turn, u: Turn) -> bool {
    t.at <= u.at && t.out.len() <= u.out.len()
}

/// Whether a later turn of a call has taken more input, or given more output.
pub open spec fn further(t: Turn, u: Turn) -> bool {
    no_less(t, u) && (t.at < u.at || t.out.len() < u.out.len())
}

/// Whether a decoder is in a stage that gets on where there is input and room.
/// At the end of a frame, and within one to skip, that need not be.
pub open spec fn keen(d: Decoder) -> bool {
    match d.stage {
        DStage::GetSuffix
        | DStage::GetSFrameSize
        | DStage::StoreSFrameSize
        | DStage::SkipSkippable => false,
        DStage::StoreSuffix => d.got.len() < 4,
        _ => true,
    }
}

#[verifier::rlimit(30)]
proof fn lemma_no_less_step(t: Turn, src: Seq<u8>, room: int)
    requires
        in_bounds(t, src, room),
    ensures
        match t.step(src, room) {
            Act::Go(u) => no_less(t, u),
            Act::Stop(u, _) => no_less(t, u),
            Act::Fail(_, _) => true,
        },
{
    reveal(Turn::step);
    lemma_step(t, src, room);
}

#[verifier::rlimit(30)]
proof fn lemma_keen_step(t: Turn, src: Seq<u8>, room: int)
    requires
        in_bounds(t, src, room),
        keen(t.d),
        t.at < src.len(),
        t.out.len() < room,
    ensures
        match t.step(src, room) {
            Act::Go(u) => further(t, u) || keen(u.d),
            Act::Stop(u, _) => further(t, u),
            Act::Fail(_, _) => true,
        },
{
    reveal(Turn::step);
    lemma_no_less_step(t, src, room);
}

proof fn lemma_no_less_run(t: Turn, src: Seq<u8>, room: int)
    requires
        in_bounds(t, src, room),
    ensures
        t.run(src, room) matches Act::Stop(u, _) ==> no_less(t, u),
    decreases src.len() - t.at, t.d.stage.rank(),
{
    lemma_step(t, src, room);
    lemma_no_less_step(t, src, room);
    if let Act::Go(next) = t.step(src, room) {
        lemma_no_less_run(next, src, room);
    }
}

proof fn lemma_keen_run(t: Turn, src: Seq<u8>, room: int)
    requires
        in_bounds(t, src, room),
        keen(t.d),
        t.at < src.len(),
        t.out.len() < room,
    ensures
        t.run(src, room) matches Act::Stop(u, _) ==> further(t, u),
    decreases src.len() - t.at, t.d.stage.rank(),
{
    lemma_step(t, src, room);
    lemma_keen_step(t, src, room);
    if let Act::Go(next) = t.step(src, room) {
        if further(t, next) {
            lemma_no_less_run(next, src, room);
        } else {
            lemma_no_less_step(t, src, room);
            lemma_keen_run(next, src, room);
        }
    }
}

/// A call that is given input and room takes some of the one or fills some of
/// the other, other than at the end of a frame or within one to skip.
pub proof fn law_gets_on(d: Decoder, src: Seq<u8>, room: int, dict: Option<Seq<u8>>, skip: bool)
    requires
        d.wf(),
        keen(d),
        src.len() > 0,
        room > 0,
    ensures
        called(d, src, room, dict, skip) matches Act::Stop(u, _) ==> u.at > 0 || u.out.len() > 0,
{
    lemma_keen_run(Turn { d: entered(d, dict, skip), at: 0, out: Seq::empty() }, src, room);
}

} // verus!
