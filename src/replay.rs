//! The replay container: an eight-byte header, then length-prefixed frames,
//! closed by an all-zero frame.
use vstd::prelude::*;

use crate::error::DogStatsDReplayReaderError;
use crate::wire::{find_payload, message_payload};

verus! {

/// Bytes in the file header: a four-byte marker, then the version and three
/// reserved bytes.
pub const HEADER_LEN: usize = 8;

/// The version byte of the one format this reader understands: the high
/// nibble is set, the low nibble holds the file version, 3.
pub const SUPPORTED_VERSION: u8 = 0xf3;

/// The four little-endian bytes at `i` as an unsigned number.
pub open spec fn le32_at(b: Seq<u8>, i: int) -> nat {
    b[i] as nat + 256 * (b[i + 1] as nat) + 65536 * (b[i + 2] as nat) + 16777216 * (
    b[i + 3] as nat)
}

/// The buffer starts with the replay marker.
pub open spec fn has_marker(b: Seq<u8>) -> bool {
    &&& b.len() >= 4
    &&& b[0] == 0xd4
    &&& b[1] == 0x74
    &&& b[2] == 0xd0
    &&& b[3] == 0x60
}

/// The header names the supported version.
pub open spec fn has_supported_version(b: Seq<u8>) -> bool {
    b.len() >= HEADER_LEN && b[4] == SUPPORTED_VERSION
}

/// The frame at `pos`: its payload and the position just past it. `None`
/// where the stream ends there: fewer than four bytes left, the closing
/// frame (a zero length followed by four zero bytes, or by the end of the
/// buffer), a frame cut short, or a body that is not a well-formed message.
pub open spec fn frame_at(b: Seq<u8>, pos: int) -> Option<(Seq<u8>, int)> {
    if pos < 0 || b.len() - pos < 4 {
        None
    } else {
        let n = le32_at(b, pos);
        let body = pos + 4;
        if n == 0 && (b.len() - body < 4 || le32_at(b, body) == 0) {
            None
        } else if b.len() - body < n {
            None
        } else {
            match message_payload(b.subrange(body, body + n)) {
                Some(p) => Some((p, body + n)),
                None => None,
            }
        }
    }
}

/// A frame ends after its length field and within the buffer.
pub proof fn lemma_frame_at(b: Seq<u8>, pos: int)
    ensures
        frame_at(b, pos) matches Some((p, next)) ==> pos + 4 <= next <= b.len(),
{
}

/// The closing frame, eight zero bytes, ends the stream where it stands:
/// no frame is read there, and so none after it.
pub proof fn lemma_closing_frame_ends_stream(b: Seq<u8>, pos: int)
    requires
        0 <= pos,
        pos + 8 <= b.len(),
        forall|j: int| pos <= j < pos + 8 ==> b[j] == 0,
    ensures
        frame_at(b, pos) is None,
{
}

/// A forward reader over the frames of a replay buffer.
pub struct ReplayReader {
    buf: Vec<u8>,
    pos: usize,
    ended: bool,
}

/// Reads the four little-endian bytes at `i`.
pub fn read_le32(b: &[u8], i: usize) -> (r: u32)
    requires
        i + 4 <= b@.len(),
    ensures
        r as nat == le32_at(b@, i as int),
{
    b[i] as u32 + 256 * (b[i + 1] as u32) + 65536 * (b[i + 2] as u32) + 16777216 * (b[i
        + 3] as u32)
}

fn copy_bytes(b: &[u8]) -> (r: Vec<u8>)
    ensures
        r@ == b@,
{
    let mut out: Vec<u8> = Vec::new();
    let mut i: usize = 0;
    while i < b.len()
        invariant
            i <= b@.len(),
            out@ == b@.subrange(0, i as int),
        decreases b@.len() - i,
    {
        out.push(b[i]);
        i = i + 1;
        assert(out@ =~= b@.subrange(0, i as int));
    }
    assert(b@.subrange(0, b@.len() as int) =~= b@);
    out
}

impl ReplayReader {
    /// The whole replay buffer.
    pub closed spec fn buffer(&self) -> Seq<u8> {
        self.buf@
    }

    /// Where the next frame starts.
    pub closed spec fn position(&self) -> int {
        self.pos as int
    }

    /// The end of the stream has been reached; no frame is read any more.
    pub closed spec fn ended(&self) -> bool {
        self.ended
    }

    pub closed spec fn wf(&self) -> bool {
        HEADER_LEN <= self.pos <= self.buf@.len()
    }

    pub proof fn lemma_wf(&self)
        requires
            self.wf(),
        ensures
            HEADER_LEN <= self.position() <= self.buffer().len(),
    {
    }

    /// Whether the end of the stream has been reached.
    pub fn is_ended(&self) -> (r: bool)
        ensures
            r == self.ended(),
    {
        self.ended
    }

    /// Checks the header and places the reader on the first frame.
    pub fn new(buf: Vec<u8>) -> (r: Result<ReplayReader, DogStatsDReplayReaderError>)
        ensures
            !has_marker(buf@) ==> r == Err::<ReplayReader, _>(
                DogStatsDReplayReaderError::NotAReplayFile,
            ),
            has_marker(buf@) && !has_supported_version(buf@) ==> r == Err::<ReplayReader, _>(
                DogStatsDReplayReaderError::UnsupportedReplayVersion,
            ),
            has_marker(buf@) && has_supported_version(buf@) ==> (r matches Ok(rd) && {
                &&& rd.wf()
                &&& rd.buffer() == buf@
                &&& rd.position() == HEADER_LEN
                &&& !rd.ended()
            }),
    {
        if buf.len() < 4 || buf[0] != 0xd4 || buf[1] != 0x74 || buf[2] != 0xd0 || buf[3] != 0x60 {
            return Err(DogStatsDReplayReaderError::NotAReplayFile);
        }
        if buf.len() < HEADER_LEN || buf[4] != SUPPORTED_VERSION {
            return Err(DogStatsDReplayReaderError::UnsupportedReplayVersion);
        }
        Ok(ReplayReader { buf, pos: HEADER_LEN, ended: false })
    }

    /// The payload of the next frame, or `None` once the stream has ended.
    pub fn read_msg(&mut self) -> (r: Option<Vec<u8>>)
        requires
            old(self).wf(),
        ensures
            final(self).wf(),
            final(self).buffer() == old(self).buffer(),
            old(self).ended() ==> r is None && *final(self) == *old(self),
            !old(self).ended() ==> match frame_at(old(self).buffer(), old(self).position()) {
                None => {
                    &&& r is None
                    &&& final(self).ended()
                    &&& final(self).position() == old(self).position()
                },
                Some((p, next)) => {
                    &&& (r matches Some(v) && v@ == p)
                    &&& !final(self).ended()
                    &&& final(self).position() == next
                },
            },
    {
        if self.ended {
            return None;
        }
        let len = self.buf.len();
        let pos = self.pos;
        if len - pos < 4 {
            self.ended = true;
            return None;
        }
        let n = read_le32(self.buf.as_slice(), pos);
        let body = pos + 4;
        if n == 0 && (len - body < 4 || read_le32(self.buf.as_slice(), body) == 0) {
            self.ended = true;
            return None;
        }
        if ((len - body) as u64) < n as u64 {
            self.ended = true;
            return None;
        }
        let end = body + n as usize;
        let frame = &self.buf.as_slice()[body..end];
        match find_payload(frame) {
            None => {
                self.ended = true;
                None
            },
            Some((s, e)) => {
                let payload = copy_bytes(&frame[s..e]);
                self.pos = end;
                Some(payload)
            },
        }
    }
}

} // verus!
