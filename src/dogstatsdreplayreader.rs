//! Reading a replay back one metric line at a time.
use std::collections::VecDeque;

use bytes::Bytes;
use vstd::prelude::*;
use vstd::string::StringExecFns;
use vstd::utf8::valid_utf8;

use crate::error::DogStatsDReplayReaderError;
use crate::lines::{
    is_utf8, join_lines, lemma_join_then_split, lemma_text_lines_no_newline, lines_of, split_lines,
    text_lines,
};
use crate::replay::{frame_at, has_marker, has_supported_version, ReplayReader, HEADER_LEN};

verus! {

#[verifier::external_type_specification]
#[verifier::external_body]
pub struct ExBytes(Bytes);

/// The bytes that a `Bytes` buffer holds, in order.
pub uninterp spec fn bytes_content(b: Bytes) -> Seq<u8>;

/// Relies on `From<Bytes> for Vec<u8>` of the bytes crate: the vector holds
/// the buffer's bytes, in order.
#[verifier::external_body]
fn bytes_into_vec(b: Bytes) -> (r: Vec<u8>)
    ensures
        r@ == bytes_content(b),
{
    Vec::from(b)
}

/// Relies on `String::insert_str` at index 0, which is always a character
/// boundary: the line is placed in front of what the string held.
#[verifier::external_body]
fn prepend(s: &mut String, line: &str)
    ensures
        final(s)@ == line@ + old(s)@,
{
    s.insert_str(0, line)
}

/// The next frame that `rd` will read: its payload and where the following
/// frame starts, or `None` where the stream is over.
pub open spec fn upcoming(rd: ReplayReader) -> Option<(Seq<u8>, int)> {
    if rd.ended() {
        None
    } else {
        frame_at(rd.buffer(), rd.position())
    }
}

/// The lines of every frame from `pos` to the end of the stream, in order,
/// or `None` where one of those frames holds a payload that is not UTF-8.
pub open spec fn stream_lines(b: Seq<u8>, pos: int) -> Option<Seq<Seq<char>>>
    decreases b.len() - pos,
    via stream_lines_decreases
{
    match frame_at(b, pos) {
        None => Some(Seq::empty()),
        Some((p, next)) => if !valid_utf8(p) {
            None
        } else {
            match stream_lines(b, next) {
                Some(rest) => Some(text_lines(p) + rest),
                None => None,
            }
        },
    }
}

#[via_fn]
proof fn stream_lines_decreases(b: Seq<u8>, pos: int) {
    crate::replay::lemma_frame_at(b, pos);
}

/// The lines of the frames from `pos` on, up to the end of the stream or
/// up to the first frame whose payload is not UTF-8, whichever comes first.
pub open spec fn stream_lines_before_error(b: Seq<u8>, pos: int) -> Seq<Seq<char>>
    decreases b.len() - pos,
    via stream_lines_before_error_decreases
{
    match frame_at(b, pos) {
        None => Seq::empty(),
        Some((p, next)) => if !valid_utf8(p) {
            Seq::empty()
        } else {
            text_lines(p) + stream_lines_before_error(b, next)
        },
    }
}

#[via_fn]
proof fn stream_lines_before_error_decreases(b: Seq<u8>, pos: int) {
    crate::replay::lemma_frame_at(b, pos);
}

/// No line holds a newline character.
pub open spec fn no_newline_in(ls: Seq<Seq<char>>) -> bool {
    forall|i: int, m: int| 0 <= i < ls.len() && 0 <= m < ls[i].len() ==> ls[i][m] != '\n'
}

proof fn lemma_stream_lines_no_newline(b: Seq<u8>, pos: int)
    ensures
        stream_lines(b, pos) matches Some(ls) ==> no_newline_in(ls),
    decreases b.len() - pos,
{
    crate::replay::lemma_frame_at(b, pos);
    if let Some((p, next)) = frame_at(b, pos) {
        if valid_utf8(p) {
            lemma_stream_lines_no_newline(b, next);
            lemma_text_lines_no_newline(p);
            if let Some(rest) = stream_lines(b, next) {
                let ls = text_lines(p) + rest;
                assert forall|i: int, m: int| 0 <= i < ls.len() && 0 <= m < ls[i].len() implies ls[i][m] != '\n' by {
                    if i >= text_lines(p).len() {
                        assert(ls[i] == rest[i - text_lines(p).len()]);
                    }
                }
            }
        }
    }
}

/// `ls` put in front of each outcome.
pub open spec fn after(ls: Seq<Seq<char>>, o: Option<Seq<Seq<char>>>) -> Option<Seq<Seq<char>>> {
    match o {
        Some(rest) => Some(ls + rest),
        None => None,
    }
}

proof fn lemma_first_then_rest(ls: Seq<Seq<char>>)
    requires
        ls.len() > 0,
    ensures
        ls == seq![ls[0]] + ls.drop_first(),
{
    assert(ls =~= seq![ls[0]] + ls.drop_first());
}

/// One call of `read_msg` from `s0` to `s1`: the lines still to come before
/// it are the line it handed out, if any, then those still to come after it;
/// and the reader moved on, or stayed where it was with a line handed out.
proof fn lemma_step(
    s0: DogStatsDReplayReader,
    s1: DogStatsDReplayReader,
    res: Result<usize, DogStatsDReplayReaderError>,
    line: Seq<char>,
)
    requires
        s0.wf(),
        s1.wf(),
        s1.reader().buffer() == s0.reader().buffer(),
        DogStatsDReplayReader::read_msg_outcome(s0, s1, res, Seq::empty(), line),
    ensures
        res matches Ok(n) && n == 1 ==> s0.remaining() == after(seq![line], s1.remaining()),
        res matches Ok(n) && n == 1 ==> s0.readable() == seq![line] + s1.readable(),
        res matches Ok(n) && n != 1 ==> s0.readable() == s1.readable(),
        res is Err ==> s0.readable() == Seq::<Seq<char>>::empty(),
        res matches Ok(n) && n != 1 ==> s0.remaining() == s1.remaining(),
        res is Err ==> s0.remaining() is None && res == Err::<usize, _>(
            DogStatsDReplayReaderError::InvalidUtf8Sequence,
        ),
        res matches Ok(n) && n != 1 && s1.pending().len() == 0 && s1.reader().ended() ==> s0.remaining() == Some(Seq::<Seq<char>>::empty()),
        ({
            let m0 = s0.reader().buffer().len() - s0.reader().position() + if s0.reader().ended() { 0int } else { 1int };
            let m1 = s1.reader().buffer().len() - s1.reader().position() + if s1.reader().ended() { 0int } else { 1int };
            &&& 0 <= m1
            &&& (m1 < m0 || (m1 == m0 && s1.pending().len() < s0.pending().len()) || (res matches Ok(n) && n != 1 && s1.pending().len() == 0 && s1.reader().ended()))
        }),
{
    s1.reader().lemma_wf();
    let b = s0.reader().buffer();
    let pos = s0.reader().position();
    crate::replay::lemma_frame_at(b, pos);
    if s0.pending().len() > 0 {
        assert(s0.pending() =~= seq![line] + s1.pending());
        if let Some(rest) = stream_lines(b, pos) {
            assert(s0.pending() + rest =~= seq![line] + (s1.pending() + rest));
        }
        let more = stream_lines_before_error(b, pos);
        assert(s0.pending() + more =~= seq![line] + (s1.pending() + more));
    } else {
        assert(s0.pending() =~= Seq::<Seq<char>>::empty());
        match upcoming(s0.reader()) {
            None => {
                assert(s1.pending() =~= Seq::<Seq<char>>::empty());
                if !s0.reader().ended() {
                    assert(stream_lines(b, pos) == Some(Seq::<Seq<char>>::empty()));
                    assert(Seq::<Seq<char>>::empty() + Seq::<Seq<char>>::empty() =~= Seq::<Seq<char>>::empty());
                }
            },
            Some((p, next)) => {
                if valid_utf8(p) {
                    crate::lines::lemma_lines_of(p);
                    if p.len() > 0 {
                        assert(line =~= text_lines(p)[0]);
                        assert(text_lines(p).len() == lines_of(p, crate::lines::NEWLINE).len());
                        assert(s1.pending() == text_lines(p).drop_first());
                        lemma_first_then_rest(text_lines(p));
                    }
                    let more = stream_lines_before_error(b, next);
                    assert(Seq::<Seq<char>>::empty() + (text_lines(p) + more) =~= text_lines(p) + more);
                    if p.len() > 0 {
                        assert((seq![line] + s1.pending()) + more =~= seq![line] + (s1.pending() + more));
                    } else {
                        assert(s1.pending() =~= Seq::<Seq<char>>::empty());
                        assert(text_lines(p) =~= Seq::<Seq<char>>::empty());
                        assert(Seq::<Seq<char>>::empty() + more =~= more);
                    }
                    if let Some(rest) = stream_lines(b, next) {
                        assert(Seq::<Seq<char>>::empty() + (text_lines(p) + rest) =~= text_lines(p) + rest);
                        if p.len() > 0 {
                            assert((seq![line] + s1.pending()) + rest =~= seq![line] + (s1.pending() + rest));
                        } else {
                            assert(Seq::<Seq<char>>::empty() + rest =~= rest);
                        }
                    }
                } else {
                    assert(Seq::<Seq<char>>::empty() + Seq::<Seq<char>>::empty() =~= Seq::<Seq<char>>::empty());
                }
            },
        }
    }
}

/// Reads the metric lines of a replay, one line per call.
pub struct DogStatsDReplayReader {
    replay_msg_reader: ReplayReader,
    current_messages: VecDeque<String>,
}

impl DogStatsDReplayReader {
    /// The frame reader underneath.
    pub closed spec fn reader(&self) -> ReplayReader {
        self.replay_msg_reader
    }

    /// The lines of the last frame read that are still to be handed out.
    pub closed spec fn pending(&self) -> Seq<Seq<char>> {
        self.current_messages@.map_values(|s: String| s@)
    }

    pub closed spec fn wf(&self) -> bool {
        &&& self.replay_msg_reader.wf()
        &&& no_newline_in(self.pending())
    }

    /// Every line still to come: the pending ones, then those of the frames
    /// not read yet; `None` where one of those frames is not UTF-8.
    pub open spec fn remaining(&self) -> Option<Seq<Seq<char>>> {
        if self.reader().ended() {
            Some(self.pending())
        } else {
            after(self.pending(), stream_lines(self.reader().buffer(), self.reader().position()))
        }
    }

    /// The lines that can still be handed out before the stream ends or a
    /// payload that is not UTF-8 stops it.
    pub open spec fn readable(&self) -> Seq<Seq<char>> {
        if self.reader().ended() {
            self.pending()
        } else {
            self.pending() + stream_lines_before_error(
                self.reader().buffer(),
                self.reader().position(),
            )
        }
    }

    /// Opens a replay held in `buf`, checking its header.
    pub fn new(buf: Bytes) -> (r: Result<Self, DogStatsDReplayReaderError>)
        ensures
            !has_marker(bytes_content(buf)) ==> r == Err::<Self, _>(
                DogStatsDReplayReaderError::NotAReplayFile,
            ),
            has_marker(bytes_content(buf)) && !has_supported_version(bytes_content(buf)) ==> r
                == Err::<Self, _>(DogStatsDReplayReaderError::UnsupportedReplayVersion),
            has_marker(bytes_content(buf)) && has_supported_version(bytes_content(buf)) ==> (r matches Ok(rd) && {
                &&& rd.wf()
                &&& rd.reader().buffer() == bytes_content(buf)
                &&& rd.reader().position() == HEADER_LEN
                &&& !rd.reader().ended()
                &&& rd.pending().len() == 0
            }),
    {
        Self::from_vec(bytes_into_vec(buf))
    }

    /// Opens a replay held in `buf`, checking its header.
    pub fn from_vec(buf: Vec<u8>) -> (r: Result<Self, DogStatsDReplayReaderError>)
        ensures
            !has_marker(buf@) ==> r == Err::<Self, _>(DogStatsDReplayReaderError::NotAReplayFile),
            has_marker(buf@) && !has_supported_version(buf@) ==> r == Err::<Self, _>(
                DogStatsDReplayReaderError::UnsupportedReplayVersion,
            ),
            has_marker(buf@) && has_supported_version(buf@) ==> (r matches Ok(rd) && {
                &&& rd.wf()
                &&& rd.reader().buffer() == buf@
                &&& rd.reader().position() == HEADER_LEN
                &&& !rd.reader().ended()
                &&& rd.pending().len() == 0
            }),
    {
        match ReplayReader::new(buf) {
            Ok(reader) => {
                let current_messages: VecDeque<String> = VecDeque::new();
                let r = DogStatsDReplayReader { replay_msg_reader: reader, current_messages };
                assert(r.pending() =~= Seq::<Seq<char>>::empty());
                Ok(r)
            },
            Err(e) => Err(e),
        }
    }

    /// What one call of `read_msg` does, from `s0` to `s1`, with `out0` and
    /// `out1` the string before and after it.
    ///
    /// A pending line is handed out first. With none pending the next frame
    /// is read: at the end of the stream nothing is handed out; a payload that
    /// is not UTF-8 is an error; an empty payload hands out nothing, though
    /// more frames may follow; otherwise its first line is handed out and the
    /// others wait, in order, for the next calls.
    pub open spec fn read_msg_outcome(
        s0: Self,
        s1: Self,
        res: Result<usize, DogStatsDReplayReaderError>,
        out0: Seq<char>,
        out1: Seq<char>,
    ) -> bool {
        &&& s1.reader().buffer() == s0.reader().buffer()
        &&& (s0.pending().len() > 0 ==> {
            &&& res == Ok::<usize, DogStatsDReplayReaderError>(1)
            &&& out1 == s0.pending()[0] + out0
            &&& s1.pending() == s0.pending().drop_first()
            &&& s1.reader() == s0.reader()
        })
        &&& (s0.pending().len() == 0 ==> match upcoming(s0.reader()) {
            None => {
                &&& res == Ok::<usize, DogStatsDReplayReaderError>(0)
                &&& out1 == out0
                &&& s1.pending().len() == 0
                &&& s1.reader().ended()
                &&& s1.reader().position() == s0.reader().position()
            },
            Some((p, next)) => {
                &&& s1.reader().position() == next
                &&& !s1.reader().ended()
                &&& !valid_utf8(p) ==> {
                    &&& res == Err::<usize, _>(DogStatsDReplayReaderError::InvalidUtf8Sequence)
                    &&& out1 == out0
                    &&& s1.pending().len() == 0
                }
                &&& valid_utf8(p) && p.len() == 0 ==> {
                    &&& res == Ok::<usize, DogStatsDReplayReaderError>(0)
                    &&& out1 == out0
                    &&& s1.pending().len() == 0
                }
                &&& valid_utf8(p) && p.len() > 0 ==> {
                    &&& res == Ok::<usize, DogStatsDReplayReaderError>(1)
                    &&& out1 == text_lines(p)[0] + out0
                    &&& s1.pending() == text_lines(p).drop_first()
                }
            },
        })
    }

    /// Hands out the next line, placed in front of what `s` holds.
    ///
    /// `Ok(1)` when a line was handed out. `Ok(0)` when none was: either the
    /// stream is over, or the frame just read had an empty payload and more
    /// may follow (see `is_exhausted`). A payload that is not UTF-8 is an
    /// error.
    pub fn read_msg(&mut self, s: &mut String) -> (r: Result<usize, DogStatsDReplayReaderError>)
        requires
            old(self).wf(),
        ensures
            final(self).wf(),
            final(self).reader().buffer() == old(self).reader().buffer(),
            Self::read_msg_outcome(*old(self), *final(self), r, old(s)@, final(s)@),
    {
        if let Some(line) = self.current_messages.pop_front() {
            proof {
                assert(self.pending() =~= old(self).pending().drop_first());
                assert forall|i: int, m: int|
                    0 <= i < self.pending().len() && 0 <= m < self.pending()[i].len() implies self.pending()[i][m] != '\n' by {
                    assert(self.pending()[i] == old(self).pending()[i + 1]);
                }
            }
            prepend(s, line.as_str());
            return Ok(1);
        }
        match self.replay_msg_reader.read_msg() {
            Some(msg) => {
                if !is_utf8(msg.as_slice()) {
                    return Err(DogStatsDReplayReaderError::InvalidUtf8Sequence);
                }
                if msg.len() == 0 {
                    return Ok(0);
                }
                let lines = split_lines(msg.as_slice());
                let ghost tl = text_lines(msg@);
                let ghost rd = self.replay_msg_reader;
                proof {
                    crate::lines::lemma_lines_of(msg@);
                    lemma_text_lines_no_newline(msg@);
                    assert(lines@.map_values(|x: String| x@).len() == lines@.len());
                    assert(tl.len() == lines_of(msg@, crate::lines::NEWLINE).len());
                    assert(self.current_messages@.map_values(|x: String| x@) =~= tl.subrange(1, 1));
                }
                let mut i: usize = 1;
                while i < lines.len()
                    invariant
                        1 <= i <= lines@.len(),
                        lines@.map_values(|x: String| x@) == tl,
                        self.current_messages@.map_values(|x: String| x@) == tl.subrange(
                            1,
                            i as int,
                        ),
                        self.replay_msg_reader == rd,
                    decreases lines@.len() - i,
                {
                    let ghost prev = self.current_messages@;
                    self.current_messages.push_back(lines[i].clone());
                    proof {
                        let cur = self.current_messages@;
                        assert(prev.map_values(|x: String| x@).len() == prev.len());
                        assert(lines@.map_values(|x: String| x@).len() == lines@.len());
                        assert(lines@.map_values(|x: String| x@)[i as int] == lines@[i as int]@);
                        assert forall|k: int| 0 <= k < cur.len() implies #[trigger] cur[k]@ == tl[k + 1] by {
                            if k < prev.len() {
                                assert(cur[k] == prev[k]);
                                assert(prev.map_values(|x: String| x@)[k] == prev[k]@);
                            }
                        }
                    }
                    i = i + 1;
                    assert(self.current_messages@.map_values(|x: String| x@) =~= tl.subrange(
                        1,
                        i as int,
                    ));
                }
                proof {
                    assert(self.pending() =~= tl.drop_first());
                    assert(lines@.map_values(|x: String| x@)[0] == lines@[0]@);
                    assert forall|k: int, m: int|
                        0 <= k < self.pending().len() && 0 <= m < self.pending()[k].len() implies self.pending()[k][m] != '\n' by {
                        assert(self.pending()[k] == tl[k + 1]);
                    }
                }
                prepend(s, lines[0].as_str());
                Ok(1)
            },
            None => Ok(0),
        }
    }

    /// Writes every line still to come to `dest`, each followed by a newline,
    /// in order. On an error the lines before the faulty frame stay written.
    pub fn write_to(&mut self, dest: &mut String) -> (r: Result<(), DogStatsDReplayReaderError>)
        requires
            old(self).wf(),
        ensures
            match old(self).remaining() {
                Some(ls) => r is Ok && final(dest)@ == old(dest)@ + join_lines(ls, '\n'),
                None => {
                    &&& r == Err::<(), _>(DogStatsDReplayReaderError::InvalidUtf8Sequence)
                    &&& final(dest)@ == old(dest)@ + join_lines(old(self).readable(), '\n')
                },
            },
    {
        let ghost orig = self.remaining();
        let ghost orig_lines = self.readable();
        let ghost d0 = dest@;
        let ghost mut emitted: Seq<Seq<char>> = Seq::empty();
        assert(after(emitted, orig) == orig) by {
            if let Some(ls) = orig {
                assert(emitted + ls =~= ls);
            }
        }
        assert(d0 + join_lines(emitted, '\n') =~= d0);
        assert(emitted + orig_lines =~= orig_lines);
        loop
            invariant
                self.wf(),
                orig == old(self).remaining(),
                d0 == old(dest)@,
                orig == after(emitted, self.remaining()),
                orig_lines == old(self).readable(),
                orig_lines == emitted + self.readable(),
                dest@ == d0 + join_lines(emitted, '\n'),
            decreases self.reader().buffer().len() - self.reader().position() + if self.reader().ended() {
                0int
            } else {
                1int
            }, self.pending().len(),
        {
            let ghost s0 = *self;
            let mut line = String::new();
            let res = self.read_msg(&mut line);
            proof {
                lemma_step(s0, *self, res, line@);
            }
            match res {
                Err(e) => {
                    assert(emitted + Seq::<Seq<char>>::empty() =~= emitted);
                    return Err(e);
                },
                Ok(n) => {
                    if n == 1 {
                        dest.append(line.as_str());
                        dest.append("\n");
                        proof {
                            reveal_strlit("\n");
                            assert(join_lines(emitted.push(line@), '\n') == join_lines(emitted, '\n') + line@.push('\n')) by {
                                assert(emitted.push(line@).drop_last() =~= emitted);
                            }
                            assert(dest@ =~= d0 + join_lines(emitted.push(line@), '\n'));
                            assert(emitted + (seq![line@] + self.readable()) =~= emitted.push(line@) + self.readable());
                            emitted = emitted.push(line@);
                        }
                    } else if self.is_exhausted() {
                        proof {
                            assert(self.pending() =~= Seq::<Seq<char>>::empty());
                            assert(emitted + self.pending() =~= emitted);
                        }
                        return Ok(());
                    }
                },
            }
        }
    }

    /// No line is pending and the stream is over: nothing more will come.
    pub fn is_exhausted(&self) -> (r: bool)
        ensures
            r == (self.pending().len() == 0 && self.reader().ended()),
    {
        self.current_messages.len() == 0 && self.replay_msg_reader.is_ended()
    }
}

/// Writing out every line still to come, one per line, and splitting the
/// written text back on newlines gives exactly those lines: same content,
/// same order, none lost or repeated.
pub proof fn lemma_written_lines_read_back(rd: DogStatsDReplayReader)
    requires
        rd.wf(),
        rd.remaining() is Some,
    ensures
        lines_of(join_lines(rd.remaining().unwrap(), '\n'), '\n') == rd.remaining().unwrap(),
{
    let ls = rd.remaining().unwrap();
    if !rd.reader().ended() {
        lemma_stream_lines_no_newline(rd.reader().buffer(), rd.reader().position());
        let rest = stream_lines(rd.reader().buffer(), rd.reader().position()).unwrap();
        assert forall|i: int, m: int| 0 <= i < ls.len() && 0 <= m < ls[i].len() implies ls[i][m] != '\n' by {
            if i >= rd.pending().len() {
                assert(ls[i] == rest[i - rd.pending().len()]);
            } else {
                assert(ls[i] == rd.pending()[i]);
            }
        }
    }
    lemma_join_then_split(ls, '\n');
}

proof fn lemma_records_from(
    s: Seq<DogStatsDReplayReader>,
    res: Seq<Result<usize, DogStatsDReplayReaderError>>,
    out: Seq<Seq<char>>,
    p: Seq<u8>,
    next: int,
    i: int,
)
    requires
        1 <= i <= res.len(),
        s.len() == res.len() + 1,
        out.len() == res.len(),
        text_lines(p).len() == res.len(),
        forall|k: int|
            0 <= k < res.len() ==> DogStatsDReplayReader::read_msg_outcome(
                #[trigger] s[k],
                s[k + 1],
                res[k],
                Seq::empty(),
                out[k],
            ),
        s[1].pending() == text_lines(p).drop_first(),
        s[1].reader().position() == next,
        !s[1].reader().ended(),
    ensures
        s[i].pending() == text_lines(p).subrange(i, res.len() as int),
        s[i].reader() == s[1].reader(),
        forall|k: int|
            1 <= k < i ==> res[k] == Ok::<usize, DogStatsDReplayReaderError>(1) && out[k]
                == text_lines(p)[k],
    decreases i,
{
    let ls = text_lines(p);
    if i == 1 {
        assert(ls.drop_first() =~= ls.subrange(1, res.len() as int));
    } else {
        lemma_records_from(s, res, out, p, next, i - 1);
        let prev = s[i - 1];
        assert(DogStatsDReplayReader::read_msg_outcome(prev, s[i], res[i - 1], Seq::empty(), out[i - 1]));
        assert(prev.pending().len() > 0);
        assert(out[i - 1] =~= ls[i - 1]);
        assert(s[i].pending() =~= ls.subrange(i, res.len() as int));
    }
}

/// A frame whose payload holds `k` records hands them out over `k`
/// calls, one per call and in order, and no further frame is read until
/// the last of them has gone: each call reports one line, and the reader
/// stays on the frame that follows.
pub proof fn lemma_frame_records_in_order(
    s: Seq<DogStatsDReplayReader>,
    res: Seq<Result<usize, DogStatsDReplayReaderError>>,
    out: Seq<Seq<char>>,
    p: Seq<u8>,
    next: int,
)
    requires
        s.len() == res.len() + 1,
        out.len() == res.len(),
        s[0].pending().len() == 0,
        upcoming(s[0].reader()) == Some((p, next)),
        valid_utf8(p),
        p.len() > 0,
        res.len() == text_lines(p).len(),
        forall|k: int|
            0 <= k < res.len() ==> DogStatsDReplayReader::read_msg_outcome(
                #[trigger] s[k],
                s[k + 1],
                res[k],
                Seq::empty(),
                out[k],
            ),
    ensures
        forall|k: int|
            0 <= k < res.len() ==> {
                &&& res[k] == Ok::<usize, DogStatsDReplayReaderError>(1)
                &&& out[k] == text_lines(p)[k]
                &&& s[k + 1].reader().position() == next
            },
        s.last().pending().len() == 0,
{
    let ls = text_lines(p);
    crate::lines::lemma_lines_of(p);
    assert(DogStatsDReplayReader::read_msg_outcome(s[0], s[1], res[0], Seq::empty(), out[0]));
    assert(out[0] =~= ls[0]);
    let n = res.len() as int;
    lemma_records_from(s, res, out, p, next, n);
    assert forall|k: int| 0 <= k < res.len() implies (#[trigger] s[k + 1]).reader().position() == next by {
        lemma_records_from(s, res, out, p, next, k + 1);
    }
    assert(s.last() == s[n]);
}

/// A frame whose payload is empty hands out no line, yet does not end the
/// stream: the reader moves past it and has not ended, so the lines of the
/// frames after it are still to come.
pub proof fn lemma_empty_payload_reads_on(
    s0: DogStatsDReplayReader,
    s1: DogStatsDReplayReader,
    res: Result<usize, DogStatsDReplayReaderError>,
    out: Seq<char>,
    next: int,
)
    requires
        s0.wf(),
        s1.wf(),
        s0.pending().len() == 0,
        upcoming(s0.reader()) == Some((Seq::<u8>::empty(), next)),
        DogStatsDReplayReader::read_msg_outcome(s0, s1, res, Seq::empty(), out),
    ensures
        res == Ok::<usize, DogStatsDReplayReaderError>(0),
        out.len() == 0,
        !s1.reader().ended(),
        s1.reader().position() == next,
        s1.remaining() == s0.remaining(),
{
    assert(valid_utf8(Seq::<u8>::empty()));
    lemma_step(s0, s1, res, out);
}

} // verus!
