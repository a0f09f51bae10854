//! The wire format: `u32` big-endian length, one type byte, then the payload,
//! where the length counts the type byte and the payload.

use crate::buffer::{
    be_u16, be_u32, buf_advance, buf_byte, buf_extend_bytes, buf_freeze, buf_len, buf_limit,
    buf_put_u16, buf_put_u32, buf_put_u8, buf_split_to, bytes_len, bytes_mut_view, bytes_view,
    lemma_u16_be_round_trip, lemma_u32_be_round_trip,
    buf_extend, read_u16_be, read_u32_be, u16_be, u32_be,
};
use bytes::{Bytes, BytesMut};
use vstd::prelude::*;

verus! {

pub const DATA_FRAME_TYPE: u8 = 0;

pub const SIZE_FRAME_TYPE: u8 = 1;

pub const NAME_FRAME_TYPE: u8 = 2;

pub const CWD_FRAME_TYPE: u8 = 3;

/// One unit of the protocol.
///
/// `Size` holds the columns first and the rows second, in memory as on the wire.
pub enum Frame {
    Data(Bytes),
    Size(u16, u16),
    Name(Bytes),
    Cwd(Bytes),
}

/// What a frame means: its payloads as sequences of bytes.
pub enum FrameModel {
    Data(Seq<u8>),
    Size(u16, u16),
    Name(Seq<u8>),
    Cwd(Seq<u8>),
}

impl View for Frame {
    type V = FrameModel;

    open spec fn view(&self) -> FrameModel {
        match *self {
            Frame::Data(b) => FrameModel::Data(bytes_view(b)),
            Frame::Size(c, r) => FrameModel::Size(c, r),
            Frame::Name(b) => FrameModel::Name(bytes_view(b)),
            Frame::Cwd(b) => FrameModel::Cwd(bytes_view(b)),
        }
    }
}

/// Why a frame could not be encoded or decoded.
#[derive(Debug, Clone, Copy, PartialEq, Eq, Structural)]
pub enum FrameError {
    /// A length prefix of zero: no room for the type byte.
    ZeroLength,
    /// A type byte that names no frame.
    UnknownType(u8),
    /// A `Size` frame whose declared length is not five.
    BadSizeLength(u32),
    /// A payload too long for the `u32` length prefix.
    PayloadTooLarge,
}

/// The type byte of a frame.
pub open spec fn frame_type(f: FrameModel) -> u8 {
    match f {
        FrameModel::Data(_) => DATA_FRAME_TYPE,
        FrameModel::Size(_, _) => SIZE_FRAME_TYPE,
        FrameModel::Name(_) => NAME_FRAME_TYPE,
        FrameModel::Cwd(_) => CWD_FRAME_TYPE,
    }
}

/// The payload of a frame as it stands on the wire.
pub open spec fn payload(f: FrameModel) -> Seq<u8> {
    match f {
        FrameModel::Data(p) => p,
        FrameModel::Size(cols, rows) => u16_be(cols) + u16_be(rows),
        FrameModel::Name(p) => p,
        FrameModel::Cwd(p) => p,
    }
}

/// A frame whose length fits the length prefix.
pub open spec fn encodable(f: FrameModel) -> bool {
    payload(f).len() + 1 <= u32::MAX
}

/// A frame that can be encoded into a fresh buffer on this machine.
pub open spec fn buildable(f: FrameModel) -> bool {
    encodable(f) && encoding(f).len() <= buf_limit()
}

/// The bytes of a frame on the wire.
pub open spec fn encoding(f: FrameModel) -> Seq<u8> {
    u32_be((payload(f).len() + 1) as u32) + seq![frame_type(f)] + payload(f)
}

/// Writes `frame` at the end of `buf` as one contiguous run of bytes.
///
/// Fails, leaving `buf` as it was, when the payload is too long for the
/// length prefix.
pub fn encode(frame: Frame, buf: &mut BytesMut) -> (r: Result<(), FrameError>)
    requires
        bytes_mut_view(*old(buf)).len() + encoding(frame@).len() <= buf_limit(),
    ensures
        r is Ok <==> encodable(frame@),
        r is Ok ==> bytes_mut_view(*final(buf)) == bytes_mut_view(*old(buf)) + encoding(frame@),
        r is Err ==> r == Err::<(), FrameError>(FrameError::PayloadTooLarge) && *final(buf) == *old(buf),
{
    match frame {
        Frame::Size(cols, rows) => {
            buf_put_u32(buf, 5);
            buf_put_u8(buf, SIZE_FRAME_TYPE);
            buf_put_u16(buf, cols);
            buf_put_u16(buf, rows);
            assert(bytes_mut_view(*buf) == bytes_mut_view(*old(buf)) + encoding(frame@));
            Ok(())
        },
        Frame::Data(bytes) => encode_payload(DATA_FRAME_TYPE, &bytes, buf),
        Frame::Name(bytes) => encode_payload(NAME_FRAME_TYPE, &bytes, buf),
        Frame::Cwd(bytes) => encode_payload(CWD_FRAME_TYPE, &bytes, buf),
    }
}

fn encode_payload(ty: u8, bytes: &Bytes, buf: &mut BytesMut) -> (r: Result<(), FrameError>)
    requires
        bytes_mut_view(*old(buf)).len() + 5 + bytes_view(*bytes).len() <= buf_limit(),
    ensures
        r is Ok <==> bytes_view(*bytes).len() + 1 <= u32::MAX,
        r is Ok ==> bytes_mut_view(*final(buf)) == bytes_mut_view(*old(buf)) + u32_be(
            (bytes_view(*bytes).len() + 1) as u32,
        ) + seq![ty] + bytes_view(*bytes),
        r is Err ==> r == Err::<(), FrameError>(FrameError::PayloadTooLarge) && *final(buf) == *old(buf),
{
    let n = bytes_len(bytes);
    if n >= 0xffff_ffffusize {
        return Err(FrameError::PayloadTooLarge);
    }
    buf_put_u32(buf, (n + 1) as u32);
    buf_put_u8(buf, ty);
    buf_extend_bytes(buf, bytes);
    Ok(())
}

/// What one call of the decoder reports.
pub enum Outcome {
    /// Not enough bytes are buffered for a whole frame.
    NotYet,
    /// A whole frame was taken from the buffer.
    Got(FrameModel),
    /// The bytes taken from the buffer do not form a valid frame.
    Failed(FrameError),
}

/// The frame that a type byte and a payload stand for.
pub open spec fn parse_frame(ty: u8, p: Seq<u8>) -> Outcome {
    if ty == DATA_FRAME_TYPE {
        Outcome::Got(FrameModel::Data(p))
    } else if ty == SIZE_FRAME_TYPE {
        if p.len() == 4 {
            Outcome::Got(FrameModel::Size(be_u16(p), be_u16(p.skip(2))))
        } else {
            Outcome::Failed(FrameError::BadSizeLength((p.len() + 1) as u32))
        }
    } else if ty == NAME_FRAME_TYPE {
        Outcome::Got(FrameModel::Name(p))
    } else if ty == CWD_FRAME_TYPE {
        Outcome::Got(FrameModel::Cwd(p))
    } else {
        Outcome::Failed(FrameError::UnknownType(ty))
    }
}

/// With a length of `n` known, takes the `n` bytes of the frame once all are buffered.
pub open spec fn take_body(n: nat, buf: Seq<u8>) -> (nat, Seq<u8>, Outcome) {
    if buf.len() >= n {
        (0, buf.skip(n as int), parse_frame(buf[0], buf.subrange(1, n as int)))
    } else {
        (n, buf, Outcome::NotYet)
    }
}

/// One step of the decoder from its pending length (zero while none is known)
/// and the buffered bytes: the new pending length, the bytes left, and the outcome.
pub open spec fn decode_step(pending: nat, buf: Seq<u8>) -> (nat, Seq<u8>, Outcome) {
    if pending != 0 {
        take_body(pending, buf)
    } else if buf.len() < 4 {
        (0, buf, Outcome::NotYet)
    } else if be_u32(buf) == 0 {
        (0, buf.skip(4), Outcome::Failed(FrameError::ZeroLength))
    } else {
        take_body(be_u32(buf) as nat, buf.skip(4))
    }
}

/// What a result of [`FrameDecoder::decode`] reports.
pub open spec fn outcome_of(r: Result<Option<Frame>, FrameError>) -> Outcome {
    match r {
        Ok(None) => Outcome::NotYet,
        Ok(Some(f)) => Outcome::Got(f@),
        Err(e) => Outcome::Failed(e),
    }
}

/// Reassembles frames from bytes that arrive in pieces of any size.
pub struct FrameDecoder {
    cur_size: u32,
}

impl FrameDecoder {
    /// The length of the frame being waited for; zero while the length
    /// prefix has not been read.
    pub closed spec fn pending(&self) -> nat {
        self.cur_size as nat
    }

    pub fn new() -> (r: FrameDecoder)
        ensures
            r.pending() == 0,
    {
        FrameDecoder { cur_size: 0 }
    }

    /// Takes at most one frame from the front of `buf`.
    ///
    /// Bytes leave `buf` only as a whole length prefix or as a whole frame,
    /// so after an error the buffer starts at the next frame and the decoder
    /// waits for its length prefix.
    pub fn decode(&mut self, buf: &mut BytesMut) -> (r: Result<Option<Frame>, FrameError>)
        ensures
            decode_step(old(self).pending(), bytes_mut_view(*old(buf))) == (
                final(self).pending(),
                bytes_mut_view(*final(buf)),
                outcome_of(r),
            ),
    {
        if self.cur_size == 0 {
            if buf_len(buf) < 4 {
                return Ok(None);
            }
            let head = buf_split_to(buf, 4);
            let n = read_u32_be(&head);
            if n == 0 {
                return Err(FrameError::ZeroLength);
            }
            self.cur_size = n;
        }
        let n = self.cur_size as usize;
        if buf_len(buf) < n {
            return Ok(None);
        }
        let ghost held = bytes_mut_view(*buf);
        let mut body = buf_split_to(buf, n);
        self.cur_size = 0;
        let ty = buf_byte(&body, 0);
        buf_advance(&mut body, 1);
        assert(bytes_mut_view(body) =~= held.subrange(1, n as int));
        if ty == DATA_FRAME_TYPE {
            Ok(Some(Frame::Data(buf_freeze(body))))
        } else if ty == SIZE_FRAME_TYPE {
            if n != 5 {
                return Err(FrameError::BadSizeLength(n as u32));
            }
            let cols = read_u16_be(&body);
            buf_advance(&mut body, 2);
            let rows = read_u16_be(&body);
            Ok(Some(Frame::Size(cols, rows)))
        } else if ty == NAME_FRAME_TYPE {
            Ok(Some(Frame::Name(buf_freeze(body))))
        } else if ty == CWD_FRAME_TYPE {
            Ok(Some(Frame::Cwd(buf_freeze(body))))
        } else {
            Err(FrameError::UnknownType(ty))
        }
    }
}

/// Decoding the encoding of a frame gives that frame back, takes exactly its
/// bytes from the buffer, and leaves the decoder waiting for a length prefix.
pub proof fn lemma_round_trip(f: FrameModel, rest: Seq<u8>)
    requires
        encodable(f),
    ensures
        decode_step(0, encoding(f) + rest) == (0nat, rest, Outcome::Got(f)),
{
    let p = payload(f);
    let n = (p.len() + 1) as u32;
    let e = encoding(f) + rest;
    assert(e.take(4) =~= u32_be(n));
    lemma_u32_be_round_trip(n);
    assert(be_u32(e) == be_u32(u32_be(n)));
    assert(e.skip(4).skip(n as int) =~= rest);
    assert(e.skip(4).subrange(1, n as int) =~= p);
    if let FrameModel::Size(cols, rows) = f {
        lemma_u16_be_round_trip(cols);
        lemma_u16_be_round_trip(rows);
        assert(p.skip(2) =~= u16_be(rows));
        assert(be_u16(p) == be_u16(u16_be(cols)));
    }
}

/// A frame with a type byte that names no frame is reported as such, and its
/// whole length is taken from the buffer, so decoding goes on at the next frame.
pub proof fn lemma_unknown_type_skipped(ty: u8, p: Seq<u8>, rest: Seq<u8>)
    requires
        ty > CWD_FRAME_TYPE,
        p.len() + 1 <= u32::MAX,
    ensures
        decode_step(0, u32_be((p.len() + 1) as u32) + seq![ty] + p + rest) == (
            0nat,
            rest,
            Outcome::Failed(FrameError::UnknownType(ty)),
        ),
{
    let n = (p.len() + 1) as u32;
    let e = u32_be(n) + seq![ty] + p + rest;
    lemma_u32_be_round_trip(n);
    assert(be_u32(e) == be_u32(u32_be(n)));
    assert(e.skip(4).skip(n as int) =~= rest);
    assert(e.skip(4)[0] == ty);
}

/// Decodes frames from the front of the buffer until one is incomplete or
/// invalid: the pending length, the bytes left, the frames in order, and the
/// error that stopped it, if any.
pub open spec fn drain(pending: nat, buf: Seq<u8>) -> (nat, Seq<u8>, Seq<FrameModel>, Option<FrameError>)
    decreases buf.len(),
{
    let (p, b, o) = decode_step(pending, buf);
    match o {
        Outcome::Got(f) => if b.len() < buf.len() {
            let (p2, b2, fs, e) = drain(p, b);
            (p2, b2, seq![f] + fs, e)
        } else {
            (p, b, seq![f], None)
        },
        Outcome::NotYet => (p, b, Seq::empty(), None),
        Outcome::Failed(e) => (p, b, Seq::empty(), Some(e)),
    }
}

/// The meanings of a list of frames.
pub open spec fn models(fs: Seq<Frame>) -> Seq<FrameModel> {
    fs.map_values(|f: Frame| f@)
}

proof fn lemma_step_consumes(pending: nat, buf: Seq<u8>)
    ensures
        decode_step(pending, buf).2 is Got ==> decode_step(pending, buf).1.len() < buf.len(),
{
}

impl FrameDecoder {
    /// Appends `input` to `buf` and decodes every whole frame buffered,
    /// stopping at the first error.
    pub fn feed(&mut self, buf: &mut BytesMut, input: &[u8]) -> (r: (Vec<Frame>, Option<FrameError>))
        requires
            bytes_mut_view(*old(buf)).len() + input@.len() <= buf_limit(),
        ensures
            drain(old(self).pending(), bytes_mut_view(*old(buf)) + input@) == (
                final(self).pending(),
                bytes_mut_view(*final(buf)),
                models(r.0@),
                r.1,
            ),
    {
        buf_extend(buf, input);
        let mut frames: Vec<Frame> = Vec::new();
        loop
            invariant
                drain(old(self).pending(), bytes_mut_view(*old(buf)) + input@) == ({
                    let (p, b, fs, e) = drain(self.pending(), bytes_mut_view(*buf));
                    (p, b, models(frames@) + fs, e)
                }),
            decreases bytes_mut_view(*buf).len(),
        {
            let ghost p0 = self.pending();
            let ghost b0 = bytes_mut_view(*buf);
            proof {
                lemma_step_consumes(p0, b0);
            }
            match self.decode(buf) {
                Ok(Some(f)) => {
                    let ghost fm = f@;
                    let ghost prev = models(frames@);
                    frames.push(f);
                    proof {
                        let (_, _, fs, _) = drain(self.pending(), bytes_mut_view(*buf));
                        assert(models(frames@) =~= prev.push(fm));
                        assert(prev + (seq![fm] + fs) =~= prev.push(fm) + fs);
                    }
                },
                Ok(None) => {
                    proof {
                        assert(models(frames@) + Seq::<FrameModel>::empty() =~= models(frames@));
                    }
                    return (frames, None);
                },
                Err(e) => {
                    proof {
                        assert(models(frames@) + Seq::<FrameModel>::empty() =~= models(frames@));
                    }
                    return (frames, Some(e));
                },
            }
        }
    }
}

} // verus!
