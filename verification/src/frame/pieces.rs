//! A frame that is decoded piece by piece, in as many calls as it takes.
use vstd::prelude::*;
use super::decoder::{called, entered, Act, Decoder};
use super::laws::{law_awaits, law_resume, Frame};

verus! {

/// A call of the decoder: the input and the room it was given, and what came of
/// it.
#[verifier::ext_equal]
pub struct Call {
    pub src: Seq<u8>,
    pub room: int,
    pub dict: Option<Seq<u8>>,
    pub skip: bool,
    pub act: Act,
}

impl Call {
    /// Whether another call is due: this one has not failed, and asks for more.
    pub open spec fn goes_on(self) -> bool {
        self.act matches Act::Stop(_, hint) && hint != 0
    }

    /// How much input the call took.
    pub open spec fn taken(self) -> int {
        match self.act {
            Act::Stop(u, _) => u.at,
            _ => 0,
        }
    }

    /// What the call gave.
    pub open spec fn out(self) -> Seq<u8> {
        match self.act {
            Act::Stop(u, _) => u.out,
            _ => Seq::empty(),
        }
    }

    /// The decoder after the call.
    pub open spec fn left_with(self) -> Decoder {
        match self.act {
            Act::Stop(u, _) => u.d,
            Act::Go(u) => u.d,
            Act::Fail(u, _) => u.d,
        }
    }
}

/// Whether `calls` is a run of calls, from the decoder `d`, on an input that has
/// `rest` to give: each is given some of what no call has taken yet, and the
/// run ends with the first that fails or asks for nothing more, if not before.
pub open spec fn run_of(d: Decoder, calls: Seq<Call>, rest: Seq<u8>) -> bool
    decreases calls.len(),
{
    calls.len() > 0 ==> {
        let c = calls[0];
        &&& c.room >= 0
        &&& c.src.len() <= rest.len() && c.src == rest.take(c.src.len() as int)
        &&& c.act == called(d, c.src, c.room, c.dict, c.skip)
        &&& if c.goes_on() {
            run_of(c.left_with(), calls.skip(1), rest.skip(c.taken()))
        } else {
            calls.len() == 1
        }
    }
}

/// What several calls gave, one after the other.
pub open spec fn given_by(calls: Seq<Call>) -> Seq<u8>
    decreases calls.len(),
{
    if calls.len() == 0 {
        Seq::empty()
    } else {
        calls[0].out() + given_by(calls.skip(1))
    }
}

/// How much input several calls took.
pub open spec fn taken_by(calls: Seq<Call>) -> int
    decreases calls.len(),
{
    if calls.len() == 0 {
        0
    } else {
        calls[0].taken() + taken_by(calls.skip(1))
    }
}

/// Whether every call that is given a dictionary is given the frame's.
pub open spec fn same_dict(f: Frame, calls: Seq<Call>) -> bool {
    forall|i: int|
        0 <= i < calls.len() ==> ((#[trigger] calls[i]).dict matches Some(x) ==> x == f.dict)
}

/// A decoder goes on expecting what it expects when it is given the frame's
/// dictionary once more.
proof fn lemma_given_again(f: Frame, d: Decoder, k: int, rest: Seq<u8>, left: Seq<u8>, dict: Option<Seq<u8>>, skip: bool)
    requires
        f.expects(d, k, rest, left),
        dict matches Some(x) ==> x == f.dict,
    ensures
        f.expects(entered(d, dict, skip), k, rest, left),
{
    reveal(Frame::expects);
}

proof fn lemma_pieces(f: Frame, d: Decoder, k: int, calls: Seq<Call>, rest: Seq<u8>, left: Seq<u8>)
    requires
        f.valid(),
        d.wf(),
        calls.len() > 0,
        f.expects(entered(d, calls[0].dict, calls[0].skip), k, rest, left),
        run_of(d, calls, rest),
        same_dict(f, calls),
    ensures
        forall|i: int| 0 <= i < calls.len() ==> (#[trigger] calls[i]).act is Stop,
        given_by(calls).len() <= left.len(),
        given_by(calls) == left.take(given_by(calls).len() as int),
        0 <= taken_by(calls) <= rest.len(),
        !calls.last().goes_on() ==> given_by(calls) == left && rest.skip(taken_by(calls))
            == f.after,
    decreases calls.len(),
{
    let c = calls[0];
    let src = c.src;
    let more = rest.skip(src.len() as int);
    assert(src + more =~= rest);
    law_resume(f, d, k, src, more, c.room, left, c.dict, c.skip);
    let n = c.out().len() as int;
    let at = c.taken();
    assert(src.skip(at) + more =~= rest.skip(at));
    let later = calls.skip(1);
    if c.goes_on() {
        let d1 = c.left_with();
        let j = choose|j: int| #[trigger]
            f.expects(d1, j, src.skip(at) + more, left.skip(n));
        if later.len() > 0 {
            let c1 = later[0];
            assert(c1 == calls[1]);
            lemma_given_again(f, d1, j, rest.skip(at), left.skip(n), c1.dict, c1.skip);
            assert forall|i: int| 0 <= i < later.len() implies ((#[trigger] later[i]).dict matches Some(
                x,
            ) ==> x == f.dict) by {
                assert(later[i] == calls[i + 1]);
            }
            lemma_pieces(f, d1, j, later, rest.skip(at), left.skip(n));
            assert(calls.last() == later.last());
            let m = given_by(later).len() as int;
            assert(left.take(n) + left.skip(n).take(m) =~= left.take(n + m));
            assert(left.take(n) + left.skip(n) =~= left);
            assert(rest.skip(at).skip(taken_by(later)) =~= rest.skip(at + taken_by(later)));
            assert forall|i: int| 0 <= i < calls.len() implies (#[trigger] calls[i]).act is Stop by {
                if i > 0 {
                    assert(later[i - 1] == calls[i]);
                }
            }
        } else {
            assert(calls.last() == c);
            assert(given_by(later) =~= Seq::empty());
            assert(c.out() + given_by(later) =~= c.out());
            assert(taken_by(later) == 0);
        }
    } else {
        assert(taken_by(later) == 0);
        assert(calls.last() == c);
        assert(c.out() + given_by(later) =~= c.out());
        assert(left.take(left.len() as int) =~= left);
    }
}

/// A valid frame may be decoded in whatever pieces, and with whatever room in
/// each call: no call fails, what the calls give is the content from its start
/// on, and once a call asks for nothing more they have given all of it and taken
/// just the frame's bytes.
pub proof fn law_pieces(f: Frame, d: Decoder, calls: Seq<Call>)
    requires
        f.valid(),
        d == d.closed(),
        d.wf(),
        run_of(d, calls, f.bytes()),
        same_dict(f, calls),
        calls.len() > 0 && calls[0].dict is None ==> f.dict.len() == 0,
    ensures
        forall|i: int| 0 <= i < calls.len() ==> (#[trigger] calls[i]).act is Stop,
        given_by(calls).len() <= f.whole().len(),
        given_by(calls) == f.whole().take(given_by(calls).len() as int),
        calls.len() > 0 && !calls.last().goes_on() ==> given_by(calls) == f.whole() && taken_by(
            calls,
        ) == f.bytes().len() - f.after.len(),
{
    if calls.len() > 0 {
        let c = calls[0];
        assert(f.dict =~= (if c.dict is Some {
            c.dict->0
        } else {
            Seq::empty()
        }));
        law_awaits(f, d, c.dict, c.skip);
        lemma_pieces(f, d, 0, calls, f.bytes(), f.whole());
        if !calls.last().goes_on() {
            assert(f.bytes().skip(taken_by(calls)).len() == f.after.len());
        }
    } else {
        assert(f.whole().take(0) =~= Seq::empty());
    }
}

} // verus!
