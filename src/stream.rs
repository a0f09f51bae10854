//! Laws of the decoder over a stream of frames that arrives in pieces.

use crate::buffer::{be_u32, lemma_u32_be_round_trip, u32_be};
use crate::frame::{
    decode_step, drain, encodable, encoding, lemma_round_trip, payload, take_body, FrameError,
    FrameModel, Outcome,
};
use vstd::prelude::*;

verus! {

/// The frames of `fs` written one after another.
pub open spec fn encode_all(fs: Seq<FrameModel>) -> Seq<u8>
    decreases fs.len(),
{
    if fs.len() == 0 {
        Seq::empty()
    } else {
        encoding(fs[0]) + encode_all(fs.skip(1))
    }
}

/// The pieces joined in order.
pub open spec fn join(chunks: Seq<Seq<u8>>) -> Seq<u8>
    decreases chunks.len(),
{
    if chunks.len() == 0 {
        Seq::empty()
    } else {
        chunks[0] + join(chunks.skip(1))
    }
}

/// Hands the pieces to the decoder one at a time, as
/// [`FrameDecoder::feed`](crate::frame::FrameDecoder::feed) does, and stops
/// at the first error: the pending length, the bytes left, every frame
/// decoded in order, and the error, if any.
pub open spec fn feed_all(pending: nat, buf: Seq<u8>, chunks: Seq<Seq<u8>>) -> (
    nat,
    Seq<u8>,
    Seq<FrameModel>,
    Option<FrameError>,
)
    decreases chunks.len(),
{
    if chunks.len() == 0 {
        (pending, buf, Seq::empty(), None)
    } else {
        let (p, b, fs, e) = drain(pending, buf + chunks[0]);
        if e is Some {
            (p, b, fs, e)
        } else {
            let (p2, b2, fs2, e2) = feed_all(p, b, chunks.skip(1));
            (p2, b2, fs + fs2, e2)
        }
    }
}

/// Every frame of `fs` fits the length prefix.
pub open spec fn all_encodable(fs: Seq<FrameModel>) -> bool {
    forall|i: int| 0 <= i < fs.len() ==> encodable(#[trigger] fs[i])
}

/// The bytes that the decoder has taken in and not yet turned into a frame,
/// a length prefix that it has already read included.
pub open spec fn unread(pending: nat, buf: Seq<u8>) -> Seq<u8> {
    if pending == 0 {
        buf
    } else {
        u32_be(pending as u32) + buf
    }
}

/// Bytes that are less than one whole frame, with a non-zero length if they
/// hold one.
pub open spec fn incomplete(r: Seq<u8>) -> bool {
    r.len() < 4 || (be_u32(r) >= 1 && r.len() < 4 + be_u32(r))
}

proof fn lemma_be_u32_bytes(s: Seq<u8>)
    requires
        s.len() >= 4,
    ensures
        u32_be(be_u32(s)) =~= s.take(4),
{
    let (a, b, c, d) = (s[0], s[1], s[2], s[3]);
    assert({
        let x = ((a as u32) << 24u32) | ((b as u32) << 16u32) | ((c as u32) << 8u32) | (d as u32);
        (x >> 24u32) as u8 == a && (x >> 16u32) as u8 == b && (x >> 8u32) as u8 == c && x as u8
            == d
    }) by (bit_vector);
}

proof fn lemma_step_completes(p: nat, b: Seq<u8>, f: FrameModel, rest: Seq<u8>)
    requires
        p <= u32::MAX,
        encodable(f),
        unread(p, b) == encoding(f) + rest,
    ensures
        decode_step(p, b) == (0nat, rest, Outcome::Got(f)),
{
    lemma_round_trip(f, rest);
    if p != 0 {
        let e = encoding(f) + rest;
        let n = (payload(f).len() + 1) as u32;
        lemma_u32_be_round_trip(n);
        lemma_u32_be_round_trip(p as u32);
        assert(e.take(4) =~= u32_be(n));
        assert(unread(p, b).take(4) =~= u32_be(p as u32));
        assert(be_u32(u32_be(p as u32)) == be_u32(u32_be(n)));
        assert(b =~= e.skip(4));
        assert(be_u32(e) == be_u32(u32_be(n)));
        assert(take_body(p, b) == take_body(be_u32(e) as nat, e.skip(4)));
    }
}

proof fn lemma_step_waits(p: nat, b: Seq<u8>)
    requires
        p <= u32::MAX,
        incomplete(unread(p, b)),
    ensures
        decode_step(p, b).2 is NotYet,
        decode_step(p, b).0 <= u32::MAX,
        unread(decode_step(p, b).0, decode_step(p, b).1) == unread(p, b),
{
    if p != 0 {
        let u = unread(p, b);
        lemma_u32_be_round_trip(p as u32);
        assert(be_u32(u) == be_u32(u32_be(p as u32)));
    } else if b.len() >= 4 {
        lemma_be_u32_bytes(b);
        assert(u32_be(be_u32(b)) + b.skip(4) =~= b);
    }
}

proof fn lemma_drain_stream(fs: Seq<FrameModel>, p: nat, b: Seq<u8>, r: Seq<u8>)
    requires
        all_encodable(fs),
        p <= u32::MAX,
        incomplete(r),
        unread(p, b) == encode_all(fs) + r,
    ensures
        drain(p, b).2 == fs,
        drain(p, b).3 is None,
        drain(p, b).0 <= u32::MAX,
        unread(drain(p, b).0, drain(p, b).1) == r,
    decreases fs.len(),
{
    if fs.len() == 0 {
        assert(encode_all(fs) + r =~= r);
        lemma_step_waits(p, b);
    } else {
        let f = fs[0];
        let rest = encode_all(fs.skip(1)) + r;
        assert(encode_all(fs) + r =~= encoding(f) + rest);
        assert(encodable(f));
        lemma_step_completes(p, b, f, rest);
        assert(all_encodable(fs.skip(1))) by {
            assert forall|i: int| 0 <= i < fs.skip(1).len() implies encodable(
                #[trigger] fs.skip(1)[i],
            ) by {
                assert(fs.skip(1)[i] == fs[i + 1]);
            }
        }
        lemma_drain_stream(fs.skip(1), 0, rest, r);
        assert(seq![f] + drain(0, rest).2 =~= fs);
    }
}

proof fn lemma_encode_all_split(fs: Seq<FrameModel>, j: int)
    requires
        0 <= j <= fs.len(),
    ensures
        encode_all(fs) == encode_all(fs.take(j)) + encode_all(fs.skip(j)),
    decreases j,
{
    if j == 0 {
        assert(fs.skip(0) =~= fs);
        assert(encode_all(fs.take(0)) + encode_all(fs) =~= encode_all(fs));
    } else {
        lemma_encode_all_split(fs.skip(1), j - 1);
        assert(fs.skip(1).skip(j - 1) =~= fs.skip(j));
        assert(fs.take(j).skip(1) =~= fs.skip(1).take(j - 1));
        assert(fs.take(j)[0] == fs[0]);
        let e0 = encoding(fs[0]);
        assert(e0 + (encode_all(fs.skip(1).take(j - 1)) + encode_all(fs.skip(j))) =~= (e0
            + encode_all(fs.skip(1).take(j - 1))) + encode_all(fs.skip(j)));
    }
}

proof fn lemma_all_encodable_take_skip(fs: Seq<FrameModel>, j: int)
    requires
        all_encodable(fs),
        0 <= j <= fs.len(),
    ensures
        all_encodable(fs.take(j)),
        all_encodable(fs.skip(j)),
{
    assert forall|i: int| 0 <= i < fs.take(j).len() implies encodable(#[trigger] fs.take(j)[i]) by {
        assert(fs.take(j)[i] == fs[i]);
    }
    assert forall|i: int| 0 <= i < fs.skip(j).len() implies encodable(#[trigger] fs.skip(j)[i]) by {
        assert(fs.skip(j)[i] == fs[i + j]);
    }
}

proof fn lemma_split(fs: Seq<FrameModel>, u: Seq<u8>) -> (res: (int, Seq<u8>))
    requires
        all_encodable(fs),
        u.len() <= encode_all(fs).len(),
        encode_all(fs).take(u.len() as int) == u,
    ensures
        0 <= res.0 <= fs.len(),
        u == encode_all(fs.take(res.0)) + res.1,
        incomplete(res.1),
    decreases fs.len(),
{
    if fs.len() == 0 {
        assert(u =~= encode_all(fs.take(0)) + u);
        (0, u)
    } else {
        let e0 = encoding(fs[0]);
        let tail = encode_all(fs.skip(1));
        assert(encodable(fs[0]));
        assert(fs.take(0) =~= Seq::<FrameModel>::empty());
        if u.len() < e0.len() {
            assert(u =~= encode_all(fs.take(0)) + u);
            if u.len() >= 4 {
                let n = (payload(fs[0]).len() + 1) as u32;
                lemma_u32_be_round_trip(n);
                assert(u[0] == e0[0] && u[1] == e0[1] && u[2] == e0[2] && u[3] == e0[3]);
                assert(be_u32(u) == be_u32(u32_be(n)));
            }
            (0, u)
        } else {
            let u2 = u.skip(e0.len() as int);
            assert(u.take(e0.len() as int) =~= e0);
            assert(tail.take(u2.len() as int) =~= u2);
            lemma_all_encodable_take_skip(fs, 1);
            let (j, r) = lemma_split(fs.skip(1), u2);
            assert(fs.take(j + 1).skip(1) =~= fs.skip(1).take(j));
            assert(fs.take(j + 1)[0] == fs[0]);
            assert(u =~= e0 + (encode_all(fs.skip(1).take(j)) + r));
            assert(u =~= encode_all(fs.take(j + 1)) + r);
            (j + 1, r)
        }
    }
}

proof fn lemma_feed_stream(fs: Seq<FrameModel>, chunks: Seq<Seq<u8>>, p: nat, b: Seq<u8>)
    requires
        all_encodable(fs),
        p <= u32::MAX,
        incomplete(unread(p, b)),
        unread(p, b) + join(chunks) == encode_all(fs),
    ensures
        feed_all(p, b, chunks) == (0nat, Seq::<u8>::empty(), fs, None::<FrameError>),
    decreases chunks.len(),
{
    if chunks.len() == 0 {
        assert(unread(p, b) + join(chunks) =~= unread(p, b));
        if fs.len() > 0 {
            let n = (payload(fs[0]).len() + 1) as u32;
            assert(encodable(fs[0]));
            lemma_u32_be_round_trip(n);
            let e = encode_all(fs);
            assert(e[0] == encoding(fs[0])[0] && e[1] == encoding(fs[0])[1] && e[2] == encoding(
                fs[0],
            )[2] && e[3] == encoding(fs[0])[3]);
            assert(be_u32(e) == be_u32(u32_be(n)));
        }
        assert(fs =~= Seq::<FrameModel>::empty());
        assert(b =~= Seq::<u8>::empty());
    } else {
        let c = chunks[0];
        let rest = join(chunks.skip(1));
        let u = unread(p, b) + c;
        assert(unread(p, b + c) =~= u);
        assert(u + rest =~= encode_all(fs));
        assert(encode_all(fs).take(u.len() as int) =~= u);
        let (j, r) = lemma_split(fs, u);
        lemma_all_encodable_take_skip(fs, j);
        lemma_drain_stream(fs.take(j), p, b + c, r);
        lemma_encode_all_split(fs, j);
        let head = encode_all(fs.take(j));
        assert(head + (r + rest) =~= head + encode_all(fs.skip(j)));
        assert((head + (r + rest)).skip(head.len() as int) =~= r + rest);
        assert((head + encode_all(fs.skip(j))).skip(head.len() as int) =~= encode_all(fs.skip(j)));
        let (p2, b2, _, _) = drain(p, b + c);
        lemma_feed_stream(fs.skip(j), chunks.skip(1), p2, b2);
        assert(fs.take(j) + fs.skip(j) =~= fs);
    }
}

/// However the bytes of consecutive frames are cut into pieces, feeding the
/// pieces in order to a fresh decoder yields exactly those frames, in order,
/// with no error and no byte left over.
pub proof fn lemma_chunked_stream(fs: Seq<FrameModel>, chunks: Seq<Seq<u8>>)
    requires
        all_encodable(fs),
        join(chunks) == encode_all(fs),
    ensures
        feed_all(0, Seq::empty(), chunks) == (0nat, Seq::<u8>::empty(), fs, None::<FrameError>),
{
    assert(Seq::<u8>::empty() + join(chunks) =~= join(chunks));
    lemma_feed_stream(fs, chunks, 0, Seq::empty());
}

/// However the bytes of one frame are cut into pieces, feeding the pieces in
/// order to a fresh decoder yields that frame exactly once and leaves nothing.
pub proof fn lemma_one_frame_any_split(f: FrameModel, chunks: Seq<Seq<u8>>)
    requires
        encodable(f),
        join(chunks) == encoding(f),
    ensures
        feed_all(0, Seq::empty(), chunks) == (0nat, Seq::<u8>::empty(), seq![f], None::<FrameError>),
{
    let fs = seq![f];
    assert(fs.skip(1) =~= Seq::<FrameModel>::empty());
    assert(fs[0] == f);
    assert(encode_all(fs.skip(1)) == Seq::<u8>::empty());
    assert(encode_all(fs) =~= encoding(f) + Seq::<u8>::empty());
    assert(encode_all(fs) =~= encoding(f));
    lemma_chunked_stream(fs, chunks);
}

} // verus!
