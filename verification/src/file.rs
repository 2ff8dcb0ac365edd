//! Frames in files: reading and writing through a stream that the caller owns.
//!
//! The stream is behind the trait [`Io`]. What is asked of it and what it
//! answers is its log, and the functions here say what they do in terms of
//! that log.
use vstd::prelude::*;
use crate::block::table::host_little_endian;
use crate::bytes::copy_from;
use crate::frame::compress::{
    begun, frame_header, lemma_ended, lemma_header_len, lemma_updated, settled_preferences,
    BlockCompressMode, Cctx, Encoder,
};
use crate::frame::decode::{decompress, get_frame_info, Dctx, Progress};
use crate::frame::decoder::{called, told, Act, Decoder};
use crate::frame::{
    block_size, bound_internal, compress_bound, compress_bound_spec, get_block_size, given, no_info,
    worst_preferences, Error, Preferences, Res, HEADER_SIZE_MAX, HEADER_SIZE_MIN,
};

pub mod laws;

verus! {

/// A request to a stream, with its answer.
pub enum Exchange {
    /// Up to `room` bytes were asked for; these came.
    Read { room: int, got: Seq<u8> },
    /// These bytes were handed over; the first `took` were taken.
    Write { data: Seq<u8>, took: int },
    /// Whether something went wrong was asked for.
    Failed(bool),
}

/// A stream of bytes, as a caller provides it.
///
/// A stream may keep a record of its exchanges, of which functions that use it
/// then speak. One without a record answers as if it kept one.
pub trait Io {
    /// Whether the stream keeps a record.
    open spec fn recorded(&self) -> bool {
        false
    }

    /// What was asked of the stream so far, and what it answered.
    open spec fn log(&self) -> Seq<Exchange> {
        Seq::empty()
    }

    /// Reads up to `buf.len()` bytes into the front of `buf`. Returns how many
    /// came; none at the end of the input or after a failure, which `error`
    /// tells apart.
    fn read(&mut self, buf: &mut [u8]) -> (n: usize)
        ensures
            n <= old(buf)@.len(),
            final(buf)@.len() == old(buf)@.len(),
            final(self).recorded() == old(self).recorded(),
            old(self).recorded() ==> final(self).log() == old(self).log().push(
                (Exchange::Read { room: old(buf)@.len() as int, got: final(buf)@.take(n as int) }),
            ),
    ;

    /// Writes `buf`. Returns how many of its bytes were written.
    fn write(&mut self, buf: &[u8]) -> (n: usize)
        ensures
            final(self).recorded() == old(self).recorded(),
            old(self).recorded() ==> final(self).log() == old(self).log().push(
                (Exchange::Write { data: buf@, took: n as int }),
            ),
    ;

    /// Whether something went wrong.
    fn error(&mut self) -> (b: bool)
        ensures
            final(self).recorded() == old(self).recorded(),
            old(self).recorded() ==> final(self).log() == old(self).log().push(
                Exchange::Failed(b),
            ),
    ;
}

/// Whether a stream went through the exchanges in `log`, by its record before
/// and after, if it keeps one.
pub open spec fn went_through(kept: bool, before: Seq<Exchange>, keeps: bool, after: Seq<Exchange>, log: Seq<Exchange>) -> bool {
    keeps == kept && (kept ==> after == before + log)
}

/// A result without its number.
pub open spec fn verdict(r: Res<usize>) -> Res<()> {
    match r {
        Ok(_) => Ok(()),
        Err(e) => Err(e),
    }
}

/// What a file that is being read holds.
#[verifier::ext_equal]
pub struct Reading {
    pub dec: Decoder,
    /// Input that was read and not decoded yet.
    pub pending: Seq<u8>,
    /// How much input is read at a time.
    pub batch: int,
}

/// What opening a file for reading comes to, by its first bytes.
pub open spec fn opens(first: Seq<u8>) -> Res<Reading> {
    if first.len() < HEADER_SIZE_MIN + 4 {
        Err(Error::IoRead)
    } else {
        match told(Decoder::fresh(0, no_info()), first) {
            (Err(e), _) => Err(e),
            (Ok((info, taken, _)), dec) => match block_size(info.block_size_id) {
                None => Err(Error::MaxBlockSizeInvalid),
                Some(size) => {
                    let pending = first.skip(taken);
                    Ok(
                        Reading {
                            dec,
                            pending,
                            batch: if size < pending.len() {
                                pending.len() as int
                            } else {
                                size
                            },
                        },
                    )
                },
            },
        }
    }
}

impl Reading {
    /// Whether reading up to `room` bytes of content, in the course of which
    /// the stream is asked and answers as in `log`, gives `out` and the result
    /// `r`, and leaves `end`.
    pub open spec fn pulls(self, room: int, log: Seq<Exchange>, out: Seq<u8>, r: Res<()>, end: Reading) -> bool
        decreases log.len(), room + self.pending.len(), 1int,
    {
        if room <= 0 {
            &&& log.len() == 0
            &&& out.len() == 0
            &&& r == Ok::<(), Error>(())
            &&& end == self
        } else if self.pending.len() > 0 {
            self.feeds(room, log, out, r, end)
        } else {
            &&& log.len() > 0
            &&& log[0] matches Exchange::Read { room: asked, got }
            &&& asked == self.batch
            &&& if got.len() > 0 {
                Reading { pending: got, ..self }.feeds(room, log.skip(1), out, r, end)
            } else {
                &&& log.len() == 2
                &&& log[1] matches Exchange::Failed(failed)
                &&& r == (if failed {
                    Err::<(), Error>(Error::IoRead)
                } else {
                    Ok(())
                })
                &&& out.len() == 0
                &&& end == self
            }
        }
    }

    /// The same, unless the stream was asked too often to count.
    pub open spec fn reads(self, room: int, log: Seq<Exchange>, out: Seq<u8>, r: Res<()>, end: Reading) -> bool {
        log.len() < u64::MAX ==> self.pulls(room, log, out, r, end)
    }

    /// The same, from where there is input to decode.
    pub open spec fn feeds(self, room: int, log: Seq<Exchange>, out: Seq<u8>, r: Res<()>, end: Reading) -> bool
        decreases log.len(), room + self.pending.len(), 0int,
    {
        match called(self.dec, self.pending, room, None, false) {
            Act::Fail(t, e) => {
                &&& log.len() == 0
                &&& out == t.out
                &&& r == Err::<(), Error>(e)
                &&& end == (Reading { dec: t.d, ..self })
            },
            Act::Go(_) => false,
            Act::Stop(t, _) => {
                let next = Reading { dec: t.d, pending: self.pending.skip(t.at), ..self };
                let n = t.out.len() as int;
                &&& 0 <= t.at <= self.pending.len()
                &&& n <= room && n <= out.len()
                &&& out.take(n) == t.out
                &&& if t.at == 0 && n == 0 {
                    &&& log.len() == 0
                    &&& out.len() == 0
                    &&& r == Ok::<(), Error>(())
                    &&& end == next
                } else {
                    next.pulls(room - n, log, out.skip(n), r, end)
                }
            },
        }
    }
}

impl Reading {
    /// Whether reading `room` bytes of content from `self` comes, after the
    /// exchanges in `log` and with `out` read, to reading the rest from `f`.
    #[verifier::opaque]
    spec fn comes_to(self, room: int, log: Seq<Exchange>, out: Seq<u8>, f: Reading) -> bool {
        forall|more: Seq<Exchange>, rest: Seq<u8>, r: Res<()>, end: Reading|
            f.pulls(room - out.len(), more, rest, r, end) ==> #[trigger] self.pulls(
                room,
                log + more,
                out + rest,
                r,
                end,
            )
    }

    /// The same, where there is input to decode.
    #[verifier::opaque]
    spec fn comes_to_feeding(self, room: int, log: Seq<Exchange>, out: Seq<u8>, f: Reading) -> bool {
        forall|more: Seq<Exchange>, rest: Seq<u8>, r: Res<()>, end: Reading|
            f.feeds(room - out.len(), more, rest, r, end) ==> #[trigger] self.pulls(
                room,
                log + more,
                out + rest,
                r,
                end,
            )
    }

    proof fn lemma_begins(self, room: int)
        ensures
            self.comes_to(room, Seq::empty(), Seq::empty(), self),
    {
        reveal(Reading::comes_to);
        assert forall|more: Seq<Exchange>, rest: Seq<u8>, r: Res<()>, end: Reading|
            self.pulls(room, more, rest, r, end) implies #[trigger] self.pulls(
            room,
            Seq::<Exchange>::empty() + more,
            Seq::<u8>::empty() + rest,
            r,
            end,
        ) by {
            assert(Seq::<Exchange>::empty() + more =~= more);
            assert(Seq::<u8>::empty() + rest =~= rest);
        }
    }

    proof fn lemma_has_input(self, room: int, log: Seq<Exchange>, out: Seq<u8>, f: Reading)
        requires
            self.comes_to(room, log, out, f),
            out.len() < room,
            f.pending.len() > 0,
        ensures
            self.comes_to_feeding(room, log, out, f),
    {
        reveal(Reading::comes_to);
        reveal(Reading::comes_to_feeding);
        assert forall|more: Seq<Exchange>, rest: Seq<u8>, r: Res<()>, end: Reading|
            f.feeds(room - out.len(), more, rest, r, end) implies #[trigger] self.pulls(
            room,
            log + more,
            out + rest,
            r,
            end,
        ) by {
            assert(f.pulls(room - out.len(), more, rest, r, end));
        }
    }

    proof fn lemma_refills(self, room: int, log: Seq<Exchange>, out: Seq<u8>, f: Reading, got: Seq<u8>)
        requires
            self.comes_to(room, log, out, f),
            out.len() < room,
            f.pending.len() == 0,
            got.len() > 0,
        ensures
            self.comes_to_feeding(
                room,
                log.push(Exchange::Read { room: f.batch, got }),
                out,
                (Reading { pending: got, ..f }),
            ),
    {
        reveal(Reading::comes_to);
        reveal(Reading::comes_to_feeding);
        let step = Exchange::Read { room: f.batch, got };
        let g = Reading { pending: got, ..f };
        assert forall|more: Seq<Exchange>, rest: Seq<u8>, r: Res<()>, end: Reading|
            g.feeds(room - out.len(), more, rest, r, end) implies #[trigger] self.pulls(
            room,
            log.push(step) + more,
            out + rest,
            r,
            end,
        ) by {
            let all = seq![step] + more;
            assert(all.skip(1) =~= more);
            assert(f.pulls(room - out.len(), all, rest, r, end));
            assert(log + all =~= log.push(step) + more);
        }
    }

    proof fn lemma_runs_out(self, room: int, log: Seq<Exchange>, out: Seq<u8>, f: Reading, failed: bool)
        requires
            self.comes_to(room, log, out, f),
            out.len() < room,
            f.pending.len() == 0,
        ensures
            self.pulls(
                room,
                log.push(Exchange::Read { room: f.batch, got: Seq::empty() }).push(
                    Exchange::Failed(failed),
                ),
                out,
                if failed {
                    Err(Error::IoRead)
                } else {
                    Ok(())
                },
                f,
            ),
    {
        reveal(Reading::comes_to);
        let step = Exchange::Read { room: f.batch, got: Seq::empty() };
        let more = seq![step, Exchange::Failed(failed)];
        let r: Res<()> = if failed {
            Err(Error::IoRead)
        } else {
            Ok(())
        };
        let rest: Seq<u8> = Seq::empty();
        assert(f.pulls(room - out.len(), more, rest, r, f));
        assert(self.pulls(room, log + more, out + rest, r, f));
        assert(out + rest =~= out);
        assert(log + more =~= log.push(step).push(Exchange::Failed(failed)));
    }

    proof fn lemma_fails(self, room: int, log: Seq<Exchange>, out: Seq<u8>, f: Reading)
        requires
            self.comes_to_feeding(room, log, out, f),
        ensures
            called(f.dec, f.pending, room - out.len(), None, false) matches Act::Fail(t, e)
                ==> self.pulls(room, log, out + t.out, Err(e), (Reading { dec: t.d, ..f })),
    {
        reveal(Reading::comes_to_feeding);
        if let Act::Fail(t, e) = called(f.dec, f.pending, room - out.len(), None, false) {
            let none: Seq<Exchange> = Seq::empty();
            let end = Reading { dec: t.d, ..f };
            assert(f.feeds(room - out.len(), none, t.out, Err(e), end));
            assert(self.pulls(room, log + none, out + t.out, Err(e), end));
            assert(log + none =~= log);
        }
    }

    proof fn lemma_decodes(self, room: int, log: Seq<Exchange>, out: Seq<u8>, f: Reading)
        requires
            self.comes_to_feeding(room, log, out, f),
        ensures
            called(f.dec, f.pending, room - out.len(), None, false) matches Act::Stop(t, _) ==> ({
                let next = Reading { dec: t.d, pending: f.pending.skip(t.at), ..f };
                0 <= t.at <= f.pending.len() && t.out.len() <= room - out.len() ==> {
                    if t.at == 0 && t.out.len() == 0 {
                        self.pulls(room, log, out + t.out, Ok(()), next)
                    } else {
                        self.comes_to(room, log, out + t.out, next)
                    }
                }
            }),
    {
        reveal(Reading::comes_to);
        reveal(Reading::comes_to_feeding);
        if let Act::Stop(t, _) = called(f.dec, f.pending, room - out.len(), None, false) {
            let next = Reading { dec: t.d, pending: f.pending.skip(t.at), ..f };
            let w = t.out;
            let k = w.len() as int;
            if 0 <= t.at <= f.pending.len() && k <= room - out.len() {
                if t.at == 0 && k == 0 {
                    let none: Seq<Exchange> = Seq::empty();
                    assert(w.take(k) =~= w);
                    assert(f.feeds(room - out.len(), none, w, Ok(()), next));
                    assert(self.pulls(room, log + none, out + w, Ok(()), next));
                    assert(log + none =~= log);
                } else {
                    assert forall|more: Seq<Exchange>, rest: Seq<u8>, r: Res<()>, end: Reading|
                        next.pulls(
                            room - (out + w).len(),
                            more,
                            rest,
                            r,
                            end,
                        ) implies #[trigger] self.pulls(
                        room,
                        log + more,
                        (out + w) + rest,
                        r,
                        end,
                    ) by {
                        assert((w + rest).take(k) =~= w);
                        assert((w + rest).skip(k) =~= rest);
                        assert(f.feeds(room - out.len(), more, w + rest, r, end));
                        assert(out + (w + rest) =~= (out + w) + rest);
                    }
                }
            }
        }
    }

    proof fn lemma_fills(self, room: int, log: Seq<Exchange>, out: Seq<u8>, f: Reading)
        requires
            self.comes_to(room, log, out, f),
            out.len() == room,
        ensures
            self.pulls(room, log, out, Ok(()), f),
    {
        reveal(Reading::comes_to);
        let none: Seq<Exchange> = Seq::empty();
        let rest: Seq<u8> = Seq::empty();
        assert(f.pulls(room - out.len(), none, rest, Ok(()), f));
        assert(self.pulls(room, log + none, out + rest, Ok(()), f));
        assert(out + rest =~= out);
        assert(log + none =~= log);
    }
}

/// A file that is being read.
pub struct ReadFile {
    dctx: Dctx,
    src_buf: Vec<u8>,
    src_buf_next: usize,
    src_buf_size: usize,
}

impl View for ReadFile {
    type V = Reading;

    closed spec fn view(&self) -> Reading {
        Reading {
            dec: self.dctx@,
            pending: self.src_buf@.subrange(self.src_buf_next as int, self.src_buf_size as int),
            batch: self.src_buf@.len() as int,
        }
    }
}

impl ReadFile {
    pub closed spec fn wf(self) -> bool {
        &&& self.dctx.wf()
        &&& self.src_buf_next <= self.src_buf_size <= self.src_buf@.len()
    }

    /// Opens a file for reading: reads as much as a header can take, and keeps
    /// what is behind the header.
    pub fn open(io: &mut dyn Io) -> (r: Res<ReadFile>)
        ensures
            exists|got: Seq<u8>|
                {
                    &&& #[trigger] went_through(
                        old(io).recorded(),
                        old(io).log(),
                        final(io).recorded(),
                        final(io).log(),
                        seq![Exchange::Read { room: HEADER_SIZE_MAX as int, got }],
                    )
                    &&& match opens(got) {
                        Ok(f) => r matches Ok(g) && g.wf() && g@ == f,
                        Err(e) => r matches Err(x) && x == e,
                    }
                },
    {
        let mut header: Vec<u8> = vec![0u8; HEADER_SIZE_MAX];
        let n = io.read(header.as_mut_slice());
        let ghost got = header@.take(n as int);
        let ghost step = Exchange::Read { room: HEADER_SIZE_MAX as int, got };
        assert(old(io).log().push(step) =~= old(io).log() + seq![step]);
        assert(went_through(
            old(io).recorded(),
            old(io).log(),
            io.recorded(),
            io.log(),
            seq![step],
        ));
        if n < HEADER_SIZE_MIN + 4 {
            return Err(Error::IoRead);
        }
        let mut dctx = Dctx::new();
        let first = &header.as_slice()[0..n];
        assert(first@ =~= got);
        let (info, consumed, _hint) = match get_frame_info(&mut dctx, first) {
            Ok(g) => g,
            Err(e) => {
                return Err(e);
            },
        };
        let size = match get_block_size(info.block_size_id) {
            Ok(s) => s,
            Err(e) => {
                return Err(e);
            },
        };
        let leftover = n - consumed;
        let batch = if size < leftover {
            leftover
        } else {
            size
        };
        let mut src_buf: Vec<u8> = vec![0u8; batch];
        copy_from(src_buf.as_mut_slice(), 0, header.as_slice(), consumed, leftover);
        let f = ReadFile { dctx, src_buf, src_buf_next: 0, src_buf_size: leftover };
        assert(f@.pending =~= got.skip(consumed as int));
        Ok(f)
    }

    /// Decodes what was read into `buf` behind its first `total` bytes.
    fn decode_some(&mut self, buf: &mut [u8], total: usize) -> (r: Res<Progress>)
        requires
            old(self).wf(),
            total <= old(buf)@.len(),
        ensures
            final(buf)@.len() == old(buf)@.len(),
            final(buf)@.take(total as int) == old(buf)@.take(total as int),
            match called(old(self)@.dec, old(self)@.pending, old(buf)@.len() - total, None, false) {
                Act::Go(_) => false,
                Act::Fail(t, e) => {
                    &&& r == Err::<Progress, Error>(e)
                    &&& final(self)@ == (Reading { dec: t.d, ..old(self)@ })
                    &&& !t.d.stuck() ==> final(self).wf()
                    &&& t.out.len() <= old(buf)@.len() - total
                    &&& final(buf)@.subrange(total as int, total + t.out.len()) == t.out
                },
                Act::Stop(t, _) => {
                    &&& r matches Ok(p)
                    &&& p.src_consumed == t.at <= old(self)@.pending.len()
                    &&& p.dst_written == t.out.len() <= old(buf)@.len() - total
                    &&& final(buf)@.subrange(total as int, total + t.out.len()) == t.out
                    &&& final(self)@ == (Reading {
                        dec: t.d,
                        pending: old(self)@.pending.skip(t.at),
                        ..old(self)@
                    })
                    &&& final(self).src_buf_size - final(self).src_buf_next == old(
                        self,
                    ).src_buf_size - old(self).src_buf_next - t.at
                    &&& final(self).wf()
                },
            },
    {
        let ghost g = self@;
        let src = &self.src_buf.as_slice()[self.src_buf_next..self.src_buf_size];
        assert(src@ =~= g.pending);
        let (_head, tail) = buf.split_at_mut(total);
        let r = decompress(&mut self.dctx, tail, src, None, false);
        if let Ok(p) = &r {
            assert(tail@.take(p.dst_written as int) =~= buf@.subrange(
                total as int,
                total + p.dst_written,
            ));
            self.src_buf_next = self.src_buf_next + p.src_consumed;
            assert(self@.pending =~= g.pending.skip(p.src_consumed as int));
        }
        assert(buf@.take(total as int) =~= old(buf)@.take(total as int));
        r
    }

    /// Fills `buf` with the next bytes of the content, reading from the file
    /// as needed. Returns how many bytes there were: fewer than `buf` holds
    /// only at the end of the input.
    ///
    /// Asks the stream for input fewer than 2 to the power of 64 times.
    pub fn read(&mut self, io: &mut dyn Io, buf: &mut [u8]) -> (r: Res<usize>)
        requires
            old(self).wf(),
        ensures
            final(buf)@.len() == old(buf)@.len(),
            exists|log: Seq<Exchange>, out: Seq<u8>|
                {
                    &&& went_through(
                        old(io).recorded(),
                        old(io).log(),
                        final(io).recorded(),
                        final(io).log(),
                        log,
                    )
                    &&& out.len() <= final(buf)@.len()
                    &&& final(buf)@.take(out.len() as int) == out
                    &&& r matches Ok(n) ==> n == out.len()
                    &&& !final(self)@.dec.stuck() ==> final(self).wf()
                    &&& #[trigger] old(self)@.reads(
                        old(buf)@.len() as int,
                        log,
                        out,
                        verdict(r),
                        final(self)@,
                    )
                },
    {
        let ghost f0 = self@;
        let ghost room = buf@.len() as int;
        let ghost log0 = io.log();
        let ghost mut log: Seq<Exchange> = Seq::empty();
        let mut asked: u64 = 0;
        let mut total: usize = 0;
        let len = buf.len();
        proof {
            assert(log0 + log =~= log0);
            assert(buf@.take(0) =~= Seq::empty());
            f0.lemma_begins(room);
        }
        while total < len
            invariant
                self.wf(),
                total <= len == buf@.len(),
                room == len == old(buf)@.len(),
                f0 == old(self)@,
                log0 == old(io).log(),
                went_through(old(io).recorded(), log0, io.recorded(), io.log(), log),
                asked == log.len(),
                log.len() > 0 ==> log.last() is Read,
                f0.comes_to(room, log, buf@.take(total as int), self@),
            decreases u64::MAX - asked, (len - total) + (self.src_buf_size - self.src_buf_next),
        {
            let ghost f = self@;
            let ghost out = buf@.take(total as int);
            if self.src_buf_size == self.src_buf_next {
                if asked == u64::MAX {
                    assert(f0.reads(room, log, out, Err(Error::IoRead), f));
                    return Err(Error::IoRead);
                }
                asked = asked + 1;
                let n = io.read(self.src_buf.as_mut_slice());
                let ghost got = self.src_buf@.take(n as int);
                let ghost before = log;
                proof {
                    let step = Exchange::Read { room: f.batch, got };
                    assert((log0 + log).push(step) =~= log0 + log.push(step));
                    log = log.push(step);
                }
                if n == 0 {
                    let failed = io.error();
                    proof {
                        assert(self@ =~= f);
                        assert(got =~= Seq::empty());
                        f0.lemma_runs_out(room, before, out, f, failed);
                        let step = Exchange::Failed(failed);
                        assert((log0 + log).push(step) =~= log0 + log.push(step));
                        log = log.push(step);
                    }
                    if failed {
                        assert(f0.reads(room, log, out, Err(Error::IoRead), f));
                        return Err(Error::IoRead);
                    }
                    assert(f0.reads(room, log, out, Ok(()), f));
                    return Ok(total);
                }
                self.src_buf_size = n;
                self.src_buf_next = 0;
                proof {
                    assert(self@ =~= (Reading { pending: got, ..f }));
                    f0.lemma_refills(room, before, out, f, got);
                }
            } else {
                proof {
                    f0.lemma_has_input(room, log, out, f);
                }
            }
            let ghost g = self@;
            match self.decode_some(buf, total) {
                Err(e) => {
                    proof {
                        f0.lemma_fails(room, log, out, g);
                        if let Act::Fail(t, _) = called(g.dec, g.pending, room - total, None, false) {
                            let all = out + t.out;
                            assert(buf@.take(all.len() as int) =~= all);
                            assert(f0.reads(room, log, all, Err(e), self@));
                        }
                    }
                    return Err(e);
                },
                Ok(p) => {
                    proof {
                        assert(buf@.take(total + p.dst_written) =~= out + buf@.subrange(
                            total as int,
                            total + p.dst_written,
                        ));
                        f0.lemma_decodes(room, log, out, g);
                    }
                    total = total + p.dst_written;
                    if p.src_consumed == 0 && p.dst_written == 0 {
                        assert(f0.reads(room, log, buf@.take(total as int), Ok(()), self@));
                        return Ok(total);
                    }
                },
            }
        }
        proof {
            assert(buf@.take(room) =~= buf@);
            f0.lemma_fills(room, log, buf@, self@);
            assert(f0.reads(room, log, buf@, Ok(()), self@));
        }
        Ok(total)
    }
}

/// What a file that is being written holds.
#[verifier::ext_equal]
pub struct Writing {
    pub enc: Encoder,
    /// The room for what a block compresses to.
    pub room: int,
    /// How much content is compressed at a time.
    pub batch: int,
    /// Whether writing failed.
    pub failed: bool,
    /// What was written so far.
    pub content: Seq<u8>,
}

impl Writing {
    /// Whether writing `data`, in the course of which the stream is asked and
    /// answers as in `log`, gives the result `r` and leaves `end`.
    pub open spec fn pushes(self, data: Seq<u8>, log: Seq<Exchange>, r: Res<()>, end: Writing, little: bool) -> bool
        decreases data.len(),
    {
        if data.len() == 0 || self.batch <= 0 {
            &&& log.len() == 0
            &&& r == Ok::<(), Error>(())
            &&& end == self
        } else {
            let n = if data.len() < self.batch {
                data.len() as int
            } else {
                self.batch
            };
            let chunk = data.take(n);
            let (bytes, enc) = self.enc.updated(
                chunk,
                BlockCompressMode::Compressed,
                self.room,
                little,
            );
            match bytes {
                Err(e) => {
                    &&& log.len() == 0
                    &&& r == Err::<(), Error>(e)
                    &&& end == (Writing { enc, failed: true, ..self })
                },
                Ok(bytes) => {
                    let next = Writing { enc, content: self.content + chunk, ..self };
                    &&& log.len() > 0
                    &&& log[0] matches Exchange::Write { data: given, took }
                    &&& given == bytes
                    &&& if took == bytes.len() {
                        next.pushes(data.skip(n), log.skip(1), r, end, little)
                    } else {
                        &&& log.len() == 1
                        &&& r == Err::<(), Error>(Error::IoWrite)
                        &&& end == (Writing { failed: true, ..next })
                    }
                },
            }
        }
    }

    /// Whether closing, in the course of which the stream is asked and answers
    /// as in `log`, gives the result `r` and leaves `end`.
    pub open spec fn ends(self, log: Seq<Exchange>, r: Res<()>, end: Writing, little: bool) -> bool {
        if self.failed {
            &&& log.len() == 0
            &&& r == Ok::<(), Error>(())
            &&& end == self
        } else {
            let (bytes, enc) = self.enc.ended(self.content, self.room, little);
            &&& end == (Writing { enc, ..self })
            &&& match bytes {
                Err(e) => log.len() == 0 && r == Err::<(), Error>(e),
                Ok(bytes) => {
                    &&& log.len() == 1
                    &&& log[0] matches Exchange::Write { data, took }
                    &&& data == bytes
                    &&& r == (if took == bytes.len() {
                        Ok(())
                    } else {
                        Err::<(), Error>(Error::IoWrite)
                    })
                },
            }
        }
    }
}

impl Writing {
    /// Whether writing `data` from `self` comes, after the exchanges in `log`
    /// and with `done` bytes written, to writing the rest from `w`.
    #[verifier::opaque]
    spec fn comes_to(self, data: Seq<u8>, log: Seq<Exchange>, done: int, w: Writing, little: bool) -> bool {
        forall|more: Seq<Exchange>, r: Res<()>, end: Writing|
            w.pushes(data.skip(done), more, r, end, little) ==> #[trigger] self.pushes(
                data,
                log + more,
                r,
                end,
                little,
            )
    }

    proof fn lemma_begins(self, data: Seq<u8>, little: bool)
        ensures
            self.comes_to(data, Seq::empty(), 0, self, little),
    {
        reveal(Writing::comes_to);
        assert(data.skip(0) =~= data);
        assert forall|more: Seq<Exchange>, r: Res<()>, end: Writing|
            self.pushes(data, more, r, end, little) implies #[trigger] self.pushes(
            data,
            Seq::<Exchange>::empty() + more,
            r,
            end,
            little,
        ) by {
            assert(Seq::<Exchange>::empty() + more =~= more);
        }
    }

    /// What comes of the next block.
    spec fn turn(self, data: Seq<u8>, done: int, little: bool) -> (Seq<u8>, Res<Seq<u8>>, Encoder) {
        let rest = data.skip(done);
        let chunk = rest.take(
            if rest.len() < self.batch {
                rest.len() as int
            } else {
                self.batch
            },
        );
        let (bytes, enc) = self.enc.updated(chunk, BlockCompressMode::Compressed, self.room, little);
        (chunk, bytes, enc)
    }

    proof fn lemma_fails(self, data: Seq<u8>, log: Seq<Exchange>, done: int, w: Writing, little: bool)
        requires
            self.comes_to(data, log, done, w, little),
            0 <= done < data.len(),
            w.batch > 0,
        ensures
            w.turn(data, done, little).1 matches Err(e) ==> self.pushes(
                data,
                log,
                Err(e),
                (Writing { enc: w.turn(data, done, little).2, failed: true, ..w }),
                little,
            ),
    {
        reveal(Writing::comes_to);
        if let Err(e) = w.turn(data, done, little).1 {
            let none: Seq<Exchange> = Seq::empty();
            let end = Writing { enc: w.turn(data, done, little).2, failed: true, ..w };
            assert(w.pushes(data.skip(done), none, Err(e), end, little));
            assert(self.pushes(data, log + none, Err(e), end, little));
            assert(log + none =~= log);
        }
    }

    proof fn lemma_goes_on(self, data: Seq<u8>, log: Seq<Exchange>, done: int, w: Writing, little: bool, took: int)
        requires
            self.comes_to(data, log, done, w, little),
            0 <= done < data.len(),
            w.batch > 0,
        ensures
            ({
                let (chunk, bytes, enc) = w.turn(data, done, little);
                bytes matches Ok(bytes) ==> {
                    let next = Writing { enc, content: w.content + chunk, ..w };
                    let after = log.push(Exchange::Write { data: bytes, took });
                    if took == bytes.len() {
                        self.comes_to(data, after, (done + chunk.len()) as int, next, little)
                    } else {
                        self.pushes(
                            data,
                            after,
                            Err(Error::IoWrite),
                            (Writing { failed: true, ..next }),
                            little,
                        )
                    }
                }
            }),
    {
        reveal(Writing::comes_to);
        let (chunk, bytes, enc) = w.turn(data, done, little);
        if let Ok(bytes) = bytes {
            let next = Writing { enc, content: w.content + chunk, ..w };
            let step = Exchange::Write { data: bytes, took };
            if took == bytes.len() {
                let far = (done + chunk.len()) as int;
                assert(data.skip(done).skip(chunk.len() as int) =~= data.skip(far));
                assert forall|more: Seq<Exchange>, r: Res<()>, end: Writing|
                    next.pushes(data.skip(far), more, r, end, little) implies #[trigger] self.pushes(
                    data,
                    log.push(step) + more,
                    r,
                    end,
                    little,
                ) by {
                    let all = seq![step] + more;
                    assert(all.skip(1) =~= more);
                    assert(w.pushes(data.skip(done), all, r, end, little));
                    assert(log + all =~= log.push(step) + more);
                }
            } else {
                let all = seq![step];
                let end = Writing { failed: true, ..next };
                assert(w.pushes(data.skip(done), all, Err(Error::IoWrite), end, little));
                assert(self.pushes(data, log + all, Err(Error::IoWrite), end, little));
                assert(log + all =~= log.push(step));
            }
        }
    }

    proof fn lemma_ends(self, data: Seq<u8>, log: Seq<Exchange>, w: Writing, little: bool)
        requires
            self.comes_to(data, log, data.len() as int, w, little),
        ensures
            self.pushes(data, log, Ok(()), w, little),
    {
        reveal(Writing::comes_to);
        let none: Seq<Exchange> = Seq::empty();
        assert(w.pushes(data.skip(data.len() as int), none, Ok(()), w, little));
        assert(self.pushes(data, log + none, Ok(()), w, little));
        assert(log + none =~= log);
    }
}

/// A file just opened for writing under the given preferences.
pub open spec fn created(prefs: Option<&Preferences>, little: bool) -> Writing {
    let p = given(prefs);
    let size = block_size(p.frame_info.block_size_id)->0;
    Writing {
        enc: begun(p, None, false, little),
        room: compress_bound_spec(size, prefs),
        batch: size,
        failed: false,
        content: Seq::empty(),
    }
}

/// A file that is being written.
pub struct WriteFile {
    cctx: Cctx,
    dst_buf: Vec<u8>,
    /// Content is compressed in pieces of one block, for which `dst_buf` has
    /// room.
    max_write_size: usize,
    /// Once set, closing leaves out the end of the frame.
    failed: bool,
    /// What was written so far.
    content: Ghost<Seq<u8>>,
}

impl View for WriteFile {
    type V = Writing;

    closed spec fn view(&self) -> Writing {
        Writing {
            enc: self.cctx@,
            room: self.dst_buf@.len() as int,
            batch: self.max_write_size as int,
            failed: self.failed,
            content: self.content@,
        }
    }
}

impl WriteFile {
    pub closed spec fn wf(self) -> bool {
        &&& self.cctx.wf()
        &&& self.cctx.block_compress_mode == BlockCompressMode::Compressed
        &&& self.max_write_size > 0
        &&& self.cctx.prefs.frame_info.content_checksum ==> self.cctx.xxh.tracks(self.content@, 0)
        &&& self.cctx@.linked() ==> self.cctx.stream.current_offset + self.cctx.tmp_in_size
            <= u32::MAX
    }

    /// Opens a file for writing, and writes the header of its frame.
    pub fn open(io: &mut dyn Io, prefs: Option<&Preferences>) -> (r: Res<WriteFile>)
        ensures
            if block_size(given(prefs).frame_info.block_size_id) is None {
                &&& r matches Err(e) && e == Error::MaxBlockSizeInvalid
                &&& went_through(
                    old(io).recorded(),
                    old(io).log(),
                    final(io).recorded(),
                    final(io).log(),
                    Seq::empty(),
                )
            } else {
                let header = frame_header(settled_preferences(given(prefs)));
                exists|took: int, little: bool|
                    {
                        &&& #[trigger] went_through(
                            old(io).recorded(),
                            old(io).log(),
                            final(io).recorded(),
                            final(io).log(),
                            seq![Exchange::Write { data: header, took }],
                        )
                        &&& if took == header.len() {
                            &&& r matches Ok(w)
                            &&& w.wf()
                            &&& w@ == #[trigger] created(prefs, little)
                        } else {
                            r matches Err(e) && e == Error::IoWrite
                        }
                    }
            },
    {
        let little = host_little_endian();
        assert(io.log() + Seq::<Exchange>::empty() =~= io.log());
        let block_size_id = match prefs {
            Some(p) => p.frame_info.block_size_id,
            None => 0,
        };
        let size = match get_block_size(block_size_id) {
            Ok(n) => n,
            Err(e) => {
                return Err(e);
            },
        };
        proof {
            lemma_room(prefs);
        }
        let room = compress_bound(size, prefs);
        let mut cctx = Cctx::new();
        let mut dst_buf: Vec<u8> = vec![0u8; room];
        let n = match cctx.begin_ordered(dst_buf.as_mut_slice(), None, None, prefs, little) {
            Ok(n) => n,
            Err(e) => {
                return Err(e);
            },
        };
        let w = WriteFile {
            cctx,
            dst_buf,
            max_write_size: size,
            failed: false,
            content: Ghost(Seq::empty()),
        };
        let ghost header = frame_header(settled_preferences(given(prefs)));
        proof {
            lemma_header_len(settled_preferences(given(prefs)));
        }
        let head = &w.dst_buf.as_slice()[0..n];
        assert(head@ =~= header);
        let took = io.write(head);
        assert(w@ =~= created(prefs, little));
        let ghost step = Exchange::Write { data: header, took: took as int };
        assert(old(io).log().push(step) =~= old(io).log() + seq![step]);
        assert(went_through(
            old(io).recorded(),
            old(io).log(),
            io.recorded(),
            io.log(),
            seq![step],
        ));
        if took != n {
            return Err(Error::IoWrite);
        }
        Ok(w)
    }

    /// Compresses `chunk` into `dst_buf`. Returns how many bytes that took.
    fn compress_some(&mut self, chunk: &[u8], little: bool) -> (r: Res<usize>)
        requires
            old(self).wf(),
            old(self)@.enc.linked() ==> old(self)@.enc.track.offset + old(self)@.enc.buffered.len()
                + chunk@.len() <= u32::MAX,
            old(self)@.enc.total + chunk@.len() <= u64::MAX,
        ensures
            final(self).wf(),
            ({
                let w = old(self)@;
                let (bytes, enc) = w.enc.updated(
                    chunk@,
                    BlockCompressMode::Compressed,
                    w.room,
                    little,
                );
                match bytes {
                    Ok(bytes) => {
                        &&& r matches Ok(n)
                        &&& n == bytes.len() <= final(self).dst_buf@.len()
                        &&& final(self).dst_buf@.take(n as int) == bytes
                        &&& final(self)@ == (Writing { enc, content: w.content + chunk@, ..w })
                        &&& enc.total == w.enc.total + chunk@.len()
                        &&& enc.linked() == w.enc.linked()
                        &&& enc.linked() ==> enc.track.offset + enc.buffered.len()
                            == w.enc.track.offset + w.enc.buffered.len() + chunk@.len()
                    },
                    Err(e) => {
                        &&& r == Err::<usize, Error>(e)
                        &&& final(self)@ == (Writing { enc, failed: true, ..w })
                    },
                }
            }),
    {
        let ghost w = self@;
        proof {
            lemma_updated(w.enc, chunk@, w.room, little);
        }
        match self.cctx.update_ordered(
            self.dst_buf.as_mut_slice(),
            chunk,
            BlockCompressMode::Compressed,
            little,
        ) {
            Ok(n) => {
                proof {
                    self.content@ = self.content@ + chunk@;
                }
                Ok(n)
            },
            Err(e) => {
                self.failed = true;
                Err(e)
            },
        }
    }

    /// Compresses `buf` and writes it, one block at a time. Returns its
    /// length.
    #[verifier::rlimit(30)]
    pub fn write(&mut self, io: &mut dyn Io, buf: &[u8]) -> (r: Res<usize>)
        requires
            old(self).wf(),
            old(self)@.enc.linked() ==> old(self)@.enc.track.offset + old(self)@.enc.buffered.len()
                + buf@.len() <= u32::MAX,
            old(self)@.enc.total + buf@.len() <= u64::MAX,
        ensures
            final(self).wf(),
            r matches Ok(n) ==> n == buf@.len(),
            exists|log: Seq<Exchange>, little: bool|
                {
                    &&& went_through(
                        old(io).recorded(),
                        old(io).log(),
                        final(io).recorded(),
                        final(io).log(),
                        log,
                    )
                    &&& #[trigger] old(self)@.pushes(
                        buf@,
                        log,
                        verdict(r),
                        final(self)@,
                        little,
                    )
                },
    {
        let little = host_little_endian();
        let ghost w0 = self@;
        let ghost log0 = io.log();
        let ghost mut log: Seq<Exchange> = Seq::empty();
        let mut sp: usize = 0;
        let len = buf.len();
        proof {
            assert(log0 + log =~= log0);
            w0.lemma_begins(buf@, little);
        }
        while sp < len
            invariant
                self.wf(),
                sp <= len == buf@.len(),
                w0 == old(self)@,
                log0 == old(io).log(),
                went_through(old(io).recorded(), log0, io.recorded(), io.log(), log),
                self@.enc.linked() ==> self@.enc.track.offset + self@.enc.buffered.len() + (len
                    - sp) <= u32::MAX,
                self@.enc.total + (len - sp) <= u64::MAX,
                w0.comes_to(buf@, log, sp as int, self@, little),
            decreases len - sp,
        {
            let ghost w = self@;
            let n = if len - sp < self.max_write_size {
                len - sp
            } else {
                self.max_write_size
            };
            let chunk = &buf[sp..sp + n];
            assert(chunk@ =~= buf@.skip(sp as int).take(n as int));
            let size = match self.compress_some(chunk, little) {
                Ok(n) => n,
                Err(e) => {
                    proof {
                        w0.lemma_fails(buf@, log, sp as int, w, little);
                    }
                    return Err(e);
                },
            };
            let bytes = &self.dst_buf.as_slice()[0..size];
            assert(bytes@ =~= self.dst_buf@.take(size as int));
            let took = io.write(bytes);
            let ghost before = log;
            proof {
                let step = Exchange::Write { data: bytes@, took: took as int };
                assert((log0 + log).push(step) =~= log0 + log.push(step));
                log = log.push(step);
                w0.lemma_goes_on(buf@, before, sp as int, w, little, took as int);
            }
            if took != size {
                self.failed = true;
                return Err(Error::IoWrite);
            }
            sp = sp + n;
        }
        proof {
            w0.lemma_ends(buf@, log, self@, little);
        }
        Ok(len)
    }

    /// Ends the frame, unless writing has failed before.
    pub fn close(&mut self, io: &mut dyn Io) -> (r: Res<()>)
        requires
            old(self).wf(),
        ensures
            final(self).wf(),
            exists|log: Seq<Exchange>, little: bool|
                {
                    &&& went_through(
                        old(io).recorded(),
                        old(io).log(),
                        final(io).recorded(),
                        final(io).log(),
                        log,
                    )
                    &&& #[trigger] old(self)@.ends(log, r, final(self)@, little)
                },
    {
        let little = host_little_endian();
        let ghost w = self@;
        let ghost none: Seq<Exchange> = Seq::empty();
        assert(io.log() + none =~= io.log());
        if self.failed {
            assert(w.ends(none, Ok(()), w, little));
            return Ok(());
        }
        let ghost data = if self.cctx.prefs.frame_info.content_checksum {
            self.content@
        } else {
            choose|data: Seq<u8>| self.cctx.xxh.tracks(data, 0)
        };
        proof {
            lemma_ended(w.enc, data, w.room, little);
        }
        assert(w.enc.ended(data, w.room, little) == w.enc.ended(w.content, w.room, little));
        let n = match self.cctx.end_ordered(self.dst_buf.as_mut_slice(), little) {
            Ok(n) => n,
            Err(e) => {
                assert(w.ends(none, Err(e), self@, little));
                return Err(e);
            },
        };
        let bytes = &self.dst_buf.as_slice()[0..n];
        assert(bytes@ =~= self.dst_buf@.take(n as int));
        let took = io.write(bytes);
        let ghost step = Exchange::Write { data: bytes@, took: took as int };
        let ghost log = seq![step];
        assert(old(io).log().push(step) =~= old(io).log() + log);
        if took != n {
            assert(w.ends(log, Err(Error::IoWrite), self@, little));
            return Err(Error::IoWrite);
        }
        assert(w.ends(log, Ok(()), self@, little));
        Ok(())
    }
}

/// The room for a block holds a header, and is no more than any machine can
/// address.
proof fn lemma_room(prefs: Option<&Preferences>)
    requires
        block_size(given(prefs).frame_info.block_size_id) is Some,
    ensures
        HEADER_SIZE_MAX <= compress_bound_spec(
            block_size(given(prefs).frame_info.block_size_id)->0,
            prefs,
        ) <= 0x100_0000,
{
    reveal(bound_internal);
    let p = match prefs {
        Some(p) => *p,
        None => worst_preferences(),
    };
    let bs = block_size(p.frame_info.block_size_id)->0;
    let waiting = if prefs is Some && p.auto_flush {
        0
    } else {
        bs - 1
    };
    assert((bs + waiting) / bs == 1 && (bs + waiting) % bs == waiting) by {
        vstd::arithmetic::div_mod::lemma_fundamental_div_mod_converse(bs + waiting, bs, 1, waiting);
    }
    assert(usize::MAX >= 0x100_0000);
    let crc = if p.frame_info.block_checksum {
        4int
    } else {
        0
    };
    assert(0 <= (4 + crc) * 1 <= 8 && 0 <= (4 + crc) * 2 <= 16);
    assert(bs * 1 == bs);
}

} // verus!
