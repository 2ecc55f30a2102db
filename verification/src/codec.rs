//! Frame encoding and decoding.
//!
//! A frame is the unit of durable storage: a 4-byte big-endian unsigned
//! length prefix followed by exactly that many payload bytes. A segment file
//! is a raw concatenation of frames with no header, footer or checksum.

use vstd::prelude::*;

verus! {

/// The longest payload a frame can carry: its length must fit the 4-byte prefix.
pub const MAX_MESSAGE_LEN: u64 = 0xFFFF_FFFF;

/// The value held by four big-endian bytes.
pub open spec fn be_u32_value(b: Seq<u8>) -> u32
    recommends
        b.len() == 4,
{
    ((b[0] as u32) << 24) | ((b[1] as u32) << 16) | ((b[2] as u32) << 8) | (b[3] as u32)
}

/// The four big-endian bytes of a 32-bit value.
pub open spec fn be_u32_bytes(n: u32) -> Seq<u8> {
    seq![
        ((n >> 24) & 0xff) as u8,
        ((n >> 16) & 0xff) as u8,
        ((n >> 8) & 0xff) as u8,
        (n & 0xff) as u8,
    ]
}

/// The bytes of one frame: length prefix, then the payload.
pub open spec fn frame(msg: Seq<u8>) -> Seq<u8>
    recommends
        msg.len() <= MAX_MESSAGE_LEN,
{
    be_u32_bytes(msg.len() as u32) + msg
}

/// The bytes of a run of frames, in order.
pub open spec fn frames(msgs: Seq<Seq<u8>>) -> Seq<u8>
    decreases msgs.len(),
{
    if msgs.len() == 0 {
        Seq::empty()
    } else {
        frame(msgs[0]) + frames(msgs.drop_first())
    }
}

/// How many bytes a run of frames takes: the sum of `4 + len` over the
/// payloads, written as the recursion that a fold of the run performs.
pub open spec fn frames_len(msgs: Seq<Seq<u8>>) -> int
    decreases msgs.len(),
{
    if msgs.len() == 0 {
        0
    } else {
        4 + msgs[0].len() + frames_len(msgs.drop_first())
    }
}

/// The payloads decodable from `data`, front to back. Decoding stops without
/// error at the first frame whose prefix or payload is not there in full:
/// such an incomplete frame can only be the trailing one, left by an
/// interrupted write, and is read as "not yet a complete message".
pub open spec fn parse(data: Seq<u8>) -> Seq<Seq<u8>>
    decreases data.len(),
{
    if data.len() < 4 {
        Seq::empty()
    } else {
        let n = be_u32_value(data.subrange(0, 4)) as int;
        if data.len() < 4 + n {
            Seq::empty()
        } else {
            seq![data.subrange(4, 4 + n)] + parse(data.subrange(4 + n, data.len() as int))
        }
    }
}

/// Reading four big-endian bytes back gives the value they were made from.
proof fn lemma_be_u32_roundtrip(n: u32)
    ensures
        be_u32_value(be_u32_bytes(n)) == n,
{
    let b = be_u32_bytes(n);
    assert(b[0] == ((n >> 24) & 0xff) as u8);
    assert(b[1] == ((n >> 16) & 0xff) as u8);
    assert(b[2] == ((n >> 8) & 0xff) as u8);
    assert(b[3] == (n & 0xff) as u8);
    assert((((((n >> 24) & 0xff) as u8) as u32) << 24) | (((((n >> 16) & 0xff) as u8) as u32)
        << 16) | (((((n >> 8) & 0xff) as u8) as u32) << 8) | (((n & 0xff) as u8) as u32) == n)
        by (bit_vector);
}

/// Encode one message as a frame.
pub fn encode_frame(msg: &[u8]) -> (out: Vec<u8>)
    requires
        msg@.len() <= MAX_MESSAGE_LEN,
    ensures
        out@ == frame(msg@),
{
    let n: u32 = msg.len() as u32;
    assert(((n >> 24) & 0xff) < 256 && ((n >> 16) & 0xff) < 256 && ((n >> 8) & 0xff) < 256 && (n
        & 0xff) < 256) by (bit_vector);
    let mut out: Vec<u8> = Vec::new();
    out.push(((n >> 24) & 0xff) as u8);
    out.push(((n >> 16) & 0xff) as u8);
    out.push(((n >> 8) & 0xff) as u8);
    out.push((n & 0xff) as u8);
    assert(out@ =~= be_u32_bytes(n));
    let mut i: usize = 0;
    while i < msg.len()
        invariant
            i <= msg@.len(),
            msg@.len() <= MAX_MESSAGE_LEN,
            out@ == be_u32_bytes(n) + msg@.subrange(0, i as int),
        decreases msg@.len() - i,
    {
        out.push(msg[i]);
        assert(out@ =~= be_u32_bytes(n) + msg@.subrange(0, i + 1));
        i = i + 1;
    }
    assert(out@ =~= frame(msg@));
    out
}

/// Decode every complete frame held by `data`, in order. An incomplete
/// trailing frame, and everything after it, is left out without error.
pub fn decode_frames(data: &[u8]) -> (msgs: Vec<Vec<u8>>)
    ensures
        msgs.deep_view() == parse(data@),
{
    let mut msgs: Vec<Vec<u8>> = Vec::new();
    let mut pos: usize = 0;
    proof {
        assert(msgs.deep_view() =~= Seq::<Seq<u8>>::empty());
        assert(data@.subrange(0, data@.len() as int) =~= data@);
        assert(msgs.deep_view() + parse(data@) =~= parse(data@));
    }
    loop
        invariant_except_break
            pos <= data@.len(),
            msgs.deep_view() + parse(data@.subrange(pos as int, data@.len() as int)) == parse(
                data@,
            ),
        ensures
            msgs.deep_view() == parse(data@),
        decreases data@.len() - pos,
    {
        let ghost rem = data@.subrange(pos as int, data@.len() as int);
        if data.len() - pos < 4 {
            proof {
                assert(msgs.deep_view() + parse(rem) =~= msgs.deep_view());
            }
            break;
        }
        let b0 = data[pos];
        let b1 = data[pos + 1];
        let b2 = data[pos + 2];
        let b3 = data[pos + 3];
        let n: u32 = ((b0 as u32) << 24) | ((b1 as u32) << 16) | ((b2 as u32) << 8) | (b3 as u32);
        proof {
            assert(rem.subrange(0, 4) =~= data@.subrange(pos as int, pos + 4));
            assert(rem.subrange(0, 4)[0] == b0 && rem.subrange(0, 4)[1] == b1 && rem.subrange(
                0,
                4,
            )[2] == b2 && rem.subrange(0, 4)[3] == b3);
            assert(be_u32_value(rem.subrange(0, 4)) == n);
        }
        if data.len() - pos - 4 < n as usize {
            proof {
                assert(rem.len() < 4 + n);
                assert(msgs.deep_view() + parse(rem) =~= msgs.deep_view());
            }
            break;
        }
        let start = pos + 4;
        let end = start + n as usize;
        let mut payload: Vec<u8> = Vec::new();
        let mut i: usize = start;
        while i < end
            invariant
                start <= i <= end <= data@.len(),
                payload@ == data@.subrange(start as int, i as int),
            decreases end - i,
        {
            payload.push(data[i]);
            assert(payload@ =~= data@.subrange(start as int, i + 1));
            i = i + 1;
        }
        proof {
            assert(rem.subrange(4, 4 + n as int) =~= data@.subrange(start as int, end as int));
            assert(rem.subrange(4 + n as int, rem.len() as int) =~= data@.subrange(
                end as int,
                data@.len() as int,
            ));
            assert(parse(rem) == seq![payload@] + parse(
                data@.subrange(end as int, data@.len() as int),
            ));
        }
        let ghost prev = msgs.deep_view();
        msgs.push(payload);
        proof {
            assert(msgs.deep_view() =~~= prev.push(payload@));
            assert(prev.push(payload@) + parse(data@.subrange(end as int, data@.len() as int))
                =~= prev + parse(rem));
        }
        pos = end;
    }
    msgs
}

/// A run of well-formed frames decodes frame by frame: whatever follows it,
/// the payloads come out first and decoding goes on with the rest.
pub proof fn lemma_parse_frames_prefix(msgs: Seq<Seq<u8>>, tail: Seq<u8>)
    requires
        forall|i: int| 0 <= i < msgs.len() ==> #[trigger] msgs[i].len() <= MAX_MESSAGE_LEN,
    ensures
        parse(frames(msgs) + tail) == msgs + parse(tail),
    decreases msgs.len(),
{
    if msgs.len() == 0 {
        assert(frames(msgs) + tail =~= tail);
        assert(msgs + parse(tail) =~= parse(tail));
    } else {
        let m = msgs[0];
        let rest = msgs.drop_first();
        let data = frames(msgs) + tail;
        lemma_be_u32_roundtrip(m.len() as u32);
        assert(data.subrange(0, 4) =~= be_u32_bytes(m.len() as u32));
        let n = be_u32_value(data.subrange(0, 4)) as int;
        assert(n == m.len());
        assert(data.len() >= 4 + n);
        assert(data.subrange(4, 4 + n) =~= m);
        assert(data.subrange(4 + n, data.len() as int) =~= frames(rest) + tail);
        lemma_parse_frames_prefix(rest, tail);
        assert(parse(data) == seq![m] + (rest + parse(tail)));
        assert(seq![m] + (rest + parse(tail)) =~= msgs + parse(tail));
    }
}

/// Round trip: decoding the concatenation of any run of framed payloads
/// gives back exactly those payloads, byte for byte, in append order.
pub proof fn lemma_round_trip(msgs: Seq<Seq<u8>>)
    requires
        forall|i: int| 0 <= i < msgs.len() ==> #[trigger] msgs[i].len() <= MAX_MESSAGE_LEN,
    ensures
        parse(frames(msgs)) == msgs,
{
    lemma_parse_frames_prefix(msgs, Seq::empty());
    assert(frames(msgs) + Seq::<u8>::empty() =~= frames(msgs));
    assert(msgs + parse(Seq::<u8>::empty()) =~= msgs);
}

/// Whether `tail` starts with an incomplete frame: its length prefix is cut
/// short, or the prefix promises more payload bytes than are there.
pub open spec fn incomplete_frame(tail: Seq<u8>) -> bool {
    tail.len() < 4 || tail.len() < 4 + be_u32_value(tail.subrange(0, 4))
}

/// Partial-tail tolerance: a file made of well-formed frames and then one
/// incomplete trailing frame decodes to exactly the well-formed payloads;
/// the cut-off tail is dropped, and decoding does not fail.
pub proof fn lemma_partial_tail(msgs: Seq<Seq<u8>>, tail: Seq<u8>)
    requires
        forall|i: int| 0 <= i < msgs.len() ==> #[trigger] msgs[i].len() <= MAX_MESSAGE_LEN,
        incomplete_frame(tail),
    ensures
        parse(frames(msgs) + tail) == msgs,
{
    lemma_parse_frames_prefix(msgs, tail);
    assert(parse(tail) =~= Seq::<Seq<u8>>::empty());
    assert(msgs + Seq::<Seq<u8>>::empty() =~= msgs);
}

/// Restart durability: appending one more frame to a file never disturbs the
/// bytes already there — they stay a prefix and the file only grows — and
/// when the file was a run of frames, decoding now yields the old payloads
/// followed by the new one.
pub proof fn lemma_restart_durability(prior: Seq<u8>, msgs: Seq<Seq<u8>>, m: Seq<u8>)
    requires
        forall|i: int| 0 <= i < msgs.len() ==> #[trigger] msgs[i].len() <= MAX_MESSAGE_LEN,
        m.len() <= MAX_MESSAGE_LEN,
    ensures
        (prior + frame(m)).len() == prior.len() + 4 + m.len(),
        (prior + frame(m)).subrange(0, prior.len() as int) == prior,
        prior == frames(msgs) ==> parse(prior + frame(m)) == msgs.push(m),
{
    assert((prior + frame(m)).subrange(0, prior.len() as int) =~= prior);
    if prior == frames(msgs) {
        lemma_parse_frames_prefix(msgs, frame(m));
        lemma_round_trip(seq![m]);
        let single = seq![m];
        assert(single.drop_first() =~= Seq::<Seq<u8>>::empty());
        assert(frames(single.drop_first()) == Seq::<u8>::empty());
        assert(frames(single) =~= frame(m));
        assert(parse(frame(m)) == single);
        assert(msgs + seq![m] =~= msgs.push(m));
    }
}

/// Offset arithmetic: the bytes a run of frames takes equal the sum of
/// `4 + len` over its payloads. Since each append lands at the byte count of
/// everything written before it, the k-th append's offset in a segment that
/// started empty is that sum over the k payloads before it.
pub proof fn lemma_offset_arithmetic(msgs: Seq<Seq<u8>>)
    ensures
        frames(msgs).len() == frames_len(msgs),
    decreases msgs.len(),
{
    if msgs.len() > 0 {
        lemma_offset_arithmetic(msgs.drop_first());
    }
}

/// Framing one more payload extends the byte run: the frames of a run plus
/// one equal the frames of the run followed by the new frame.
pub proof fn lemma_frames_push(msgs: Seq<Seq<u8>>, m: Seq<u8>)
    ensures
        frames(msgs.push(m)) == frames(msgs) + frame(m),
    decreases msgs.len(),
{
    if msgs.len() == 0 {
        assert(msgs.push(m)[0] == m);
        assert(msgs.push(m).drop_first() =~= Seq::<Seq<u8>>::empty());
        assert(frames(msgs.push(m).drop_first()) == Seq::<u8>::empty());
        assert(frames(msgs.push(m)) =~= frames(msgs) + frame(m));
    } else {
        assert(msgs.push(m)[0] == msgs[0]);
        assert(msgs.push(m).drop_first() =~= msgs.drop_first().push(m));
        lemma_frames_push(msgs.drop_first(), m);
        assert(frames(msgs.push(m)) == frame(msgs[0]) + frames(msgs.push(m).drop_first()));
        assert(frames(msgs.push(m).drop_first()) == frames(msgs.drop_first()) + frame(m));
        assert(frames(msgs) == frame(msgs[0]) + frames(msgs.drop_first()));
        assert(frames(msgs.push(m)) =~= frames(msgs) + frame(m));
    }
}

} // verus!
