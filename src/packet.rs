use vstd::prelude::*;
use vstd::slice::slice_subrange;

use crate::dispatch::{dispatch, kind_of, PacketKind};
use crate::error::Error;
use crate::framing::{
    announced_len, frame_len, frames, is_frame, lemma_split_concat, lemma_split_step, lemma_total_length,
    split, starts_with_frame, well_framed,
};
use crate::header::{parse_header, Header, HEADER_LENGTH};
use crate::raw_packet::RawPacket;

verus! {

/// An RTCP packet: something that can name the synchronization sources it
/// addresses and write itself, header and body, as one sub-packet.
pub trait Packet {
    /// The packet's wire form, header and body, or the reason it has none.
    /// Implementations define it; the default exists so that code outside
    /// the verifier can implement the trait, and generic code never sees it.
    closed spec fn encoding(&self) -> Result<Seq<u8>, Error> {
        Err(Error::InvalidHeader)
    }

    /// The SSRCs this packet refers to, in the order its body declares them.
    /// Defined by implementations, as `encoding` is.
    closed spec fn ssrcs(&self) -> Seq<u32> {
        Seq::empty()
    }

    /// The SSRCs this packet refers to, in the order its body declares them.
    fn destination_ssrc(&self) -> (r: Vec<u32>)
        ensures
            r@ == self.ssrcs(),
    ;

    /// Appends the packet's wire form to `out`: exactly one sub-packet, whose
    /// header announces its whole size. On failure the packet's own error is
    /// returned; bytes already in `out` are never touched.
    fn marshal(&self, out: &mut Vec<u8>) -> (r: Result<(), Error>)
        ensures
            old(out)@.is_prefix_of(final(out)@),
            match self.encoding() {
                Ok(w) => r is Ok && final(out)@ == old(out)@ + w && is_frame(w),
                Err(e) => r == Err::<(), Error>(e),
            },
    ;
}

/// The decoders of the packet kinds that the dispatch table names.
pub trait Unmarshal: Sized {
    /// What the decoder for `kind` makes of the sub-packet `data`.
    /// Implementations define it; the default exists so that code outside
    /// the verifier can implement the trait, and generic code never sees it.
    closed spec fn decode(kind: PacketKind, data: Seq<u8>) -> Result<Self, Error> {
        Err(Error::InvalidHeader)
    }

    /// Decodes one sub-packet, header included, of the given kind.
    fn unmarshal(kind: PacketKind, data: &[u8]) -> (r: Result<Self, Error>)
        requires
            is_frame(data@),
            kind == kind_of(parse_header(data@)),
            kind != PacketKind::Raw,
        ensures
            r == Self::decode(kind, data@),
    ;
}

/// One decoded sub-packet: either a kind that a decoder understood, or the
/// raw bytes of one that no decoder handles.
#[derive(Debug, PartialEq, Eq)]
pub enum Decoded<P> {
    Known(P),
    Raw(RawPacket),
}

/// A decoder of a packet kind, not the core, decides what becomes of `f`.
pub open spec fn needs_decoder(f: Seq<u8>) -> bool {
    kind_of(parse_header(f)) != PacketKind::Raw
}

/// What the decoder that the table picks for `f` makes of it.
pub open spec fn decode_frame<P: Unmarshal>(f: Seq<u8>) -> Result<P, Error> {
    P::decode(kind_of(parse_header(f)), f)
}

/// `d` is what the dispatch table makes of the sub-packet `f`: its bytes
/// when no decoder handles it, and the chosen decoder's value otherwise.
pub open spec fn decoded_ok<P: Unmarshal>(d: Decoded<P>, f: Seq<u8>) -> bool {
    match d {
        Decoded::Raw(p) => !needs_decoder(f) && p@ == f,
        Decoded::Known(p) => needs_decoder(f) && decode_frame::<P>(f) == Ok::<P, Error>(p),
    }
}

/// The sub-packet `f` passes: no decoder is needed, or the chosen one succeeds.
pub open spec fn frame_decodes<P: Unmarshal>(f: Seq<u8>) -> bool {
    !needs_decoder(f) || decode_frame::<P>(f) is Ok
}

/// The failure that decoding `s` from its start runs into first, if any:
/// bytes that hold no whole sub-packet, or the error of a sub-packet's
/// decoder. Nothing after it is looked at.
pub open spec fn first_failure<P: Unmarshal>(s: Seq<u8>) -> Option<Error>
    decreases s.len(),
{
    if s.len() == 0 {
        None
    } else if !starts_with_frame(s) {
        Some(Error::PacketTooShort)
    } else {
        let f = s.take(frame_len(s) as int);
        if !frame_decodes::<P>(f) {
            Some(decode_frame::<P>(f)->Err_0)
        } else {
            first_failure::<P>(s.skip(frame_len(s) as int))
        }
    }
}

/// The wire forms of `ps`, in order, or the error of the first packet that
/// has none.
pub open spec fn encode_all<T: Packet>(ps: Seq<T>) -> Result<Seq<Seq<u8>>, Error>
    decreases ps.len(),
{
    if ps.len() == 0 {
        Ok(Seq::empty())
    } else {
        match ps[0].encoding() {
            Err(e) => Err(e),
            Ok(w) => match encode_all(ps.drop_first()) {
                Ok(ws) => Ok(seq![w] + ws),
                Err(e) => Err(e),
            },
        }
    }
}

/// `ws` followed by what `rest` gives.
pub open spec fn after(ws: Seq<Seq<u8>>, rest: Result<Seq<Seq<u8>>, Error>) -> Result<
    Seq<Seq<u8>>,
    Error,
> {
    match rest {
        Ok(more) => Ok(ws + more),
        Err(e) => Err(e),
    }
}

impl Packet for RawPacket {
    open spec fn ssrcs(&self) -> Seq<u32> {
        Seq::empty()
    }

    open spec fn encoding(&self) -> Result<Seq<u8>, Error> {
        Ok(self@)
    }

    fn destination_ssrc(&self) -> (r: Vec<u32>) {
        let r = RawPacket::destination_ssrc(self);
        assert(r@ =~= Seq::<u32>::empty());
        r
    }

    fn marshal(&self, out: &mut Vec<u8>) -> (r: Result<(), Error>) {
        RawPacket::marshal(self, out);
        Ok(())
    }
}

impl<P: Packet> Packet for Decoded<P> {
    open spec fn ssrcs(&self) -> Seq<u32> {
        match self {
            Decoded::Known(p) => p.ssrcs(),
            Decoded::Raw(_) => Seq::empty(),
        }
    }

    open spec fn encoding(&self) -> Result<Seq<u8>, Error> {
        match self {
            Decoded::Known(p) => p.encoding(),
            Decoded::Raw(p) => Ok(p@),
        }
    }

    fn destination_ssrc(&self) -> (r: Vec<u32>) {
        match self {
            Decoded::Known(p) => p.destination_ssrc(),
            Decoded::Raw(p) => {
                let r = RawPacket::destination_ssrc(p);
                assert(r@ =~= Seq::<u32>::empty());
                r
            },
        }
    }

    fn marshal(&self, out: &mut Vec<u8>) -> (r: Result<(), Error>) {
        match self {
            Decoded::Known(p) => p.marshal(out),
            Decoded::Raw(p) => Packet::marshal(p, out),
        }
    }
}

/// Routes one sub-packet to the decoder that its header selects and returns
/// that decoder's result unchanged; one that no decoder handles is kept as
/// raw bytes, and that never fails.
pub fn unmarshaler<P: Unmarshal>(data: &[u8], header: &Header) -> (r: Result<Decoded<P>, Error>)
    requires
        is_frame(data@),
        *header == parse_header(data@),
    ensures
        !needs_decoder(data@) ==> r is Ok && decoded_ok(r->Ok_0, data@),
        needs_decoder(data@) ==> r == match P::decode(kind_of(*header), data@) {
            Ok(p) => Ok::<Decoded<P>, Error>(Decoded::Known(p)),
            Err(e) => Err::<Decoded<P>, Error>(e),
        },
{
    match dispatch(header) {
        PacketKind::Raw => match RawPacket::unmarshal(data) {
            Ok(p) => Ok(Decoded::Raw(p)),
            Err(e) => Err(e),
        },
        kind => match P::unmarshal(kind, data) {
            Ok(p) => Ok(Decoded::Known(p)),
            Err(e) => Err(e),
        },
    }
}

/// Splits a whole datagram, a compound packet or a single one, into its
/// sub-packets and decodes each in order. The first failure, of the framing
/// or of a decoder, ends the call with that error and no packet is returned.
pub fn unmarshal<P: Unmarshal>(raw_data: &[u8]) -> (r: Result<Vec<Decoded<P>>, Error>)
    ensures
        raw_data@.len() == 0 ==> r == Err::<Vec<Decoded<P>>, Error>(Error::InvalidHeader),
        1 <= raw_data@.len() < 4 ==> r == Err::<Vec<Decoded<P>>, Error>(Error::PacketTooShort),
        raw_data@.len() > 0 ==> match first_failure::<P>(raw_data@) {
            Some(e) => r == Err::<Vec<Decoded<P>>, Error>(e),
            None => {
                &&& r is Ok
                &&& split(raw_data@) == Ok::<Seq<Seq<u8>>, Error>(frames(raw_data@))
                &&& r->Ok_0@.len() == frames(raw_data@).len()
                &&& forall|i: int|
                    0 <= i < r->Ok_0@.len() ==> #[trigger] decoded_ok(
                        r->Ok_0@[i],
                        frames(raw_data@)[i],
                    )
            },
        },
{
    let ghost s = raw_data@;
    let ghost mut done: Seq<Seq<u8>> = Seq::empty();
    let mut packets: Vec<Decoded<P>> = Vec::new();
    let mut i: usize = 0;
    proof {
        assert(s.skip(0) =~= s);
        assert(done + frames(s) =~= frames(s));
    }
    while i < raw_data.len()
        invariant
            i <= s.len(),
            s == raw_data@,
            frames(s) == done + frames(s.skip(i as int)),
            well_framed(s) == well_framed(s.skip(i as int)),
            first_failure::<P>(s) == first_failure::<P>(s.skip(i as int)),
            packets@.len() == done.len(),
            forall|k: int| 0 <= k < done.len() ==> #[trigger] decoded_ok(packets@[k], done[k]),
        decreases s.len() - i,
    {
        let rest = slice_subrange(raw_data, i, raw_data.len());
        assert(rest@ == s.skip(i as int));
        if rest.len() < HEADER_LENGTH {
            return Err(Error::PacketTooShort);
        }
        let header = Header::from_bytes(rest);
        let bytes_processed = (header.length as usize + 1) * 4;
        if bytes_processed > rest.len() {
            return Err(Error::PacketTooShort);
        }
        let ghost tail = s.skip(i as int);
        proof {
            assert(starts_with_frame(tail));
            lemma_split_step(tail);
            assert(tail.skip(bytes_processed as int) =~= s.skip(i + bytes_processed));
        }
        let data = slice_subrange(raw_data, i, i + bytes_processed);
        assert(data@ =~= tail.take(bytes_processed as int));
        assert(parse_header(data@) == header);
        let packet = match unmarshaler::<P>(data, &header) {
            Ok(p) => p,
            Err(e) => {
                return Err(e);
            },
        };
        packets.push(packet);
        proof {
            done = done.push(data@);
            assert(frames(s) =~= done + frames(s.skip(i + bytes_processed)));
        }
        i = i + bytes_processed;
    }
    proof {
        assert(s.skip(i as int).len() == 0);
        assert(frames(s.skip(i as int)) =~= Seq::<Seq<u8>>::empty());
        assert(frames(s) =~= done);
    }
    if packets.len() == 0 {
        return Err(Error::InvalidHeader);
    }
    Ok(packets)
}

/// Writes each packet's wire form to `out`, in order, with nothing between
/// them. The first packet that fails ends the call with its error; what was
/// written before stays written.
pub fn marshal<T: Packet>(packets: &[T], out: &mut Vec<u8>) -> (r: Result<(), Error>)
    ensures
        old(out)@.is_prefix_of(final(out)@),
        packets@.len() == 0 ==> r is Ok && final(out)@ == old(out)@,
        match encode_all(packets@) {
            Ok(ws) => {
                let written = final(out)@.skip(old(out)@.len() as int);
                &&& r is Ok
                &&& final(out)@ == old(out)@ + ws.flatten()
                &&& ws.len() == packets@.len()
                &&& well_framed(written)
                &&& frames(written) == ws
                &&& written.len() == announced_len(frames(written))
            },
            Err(e) => r == Err::<(), Error>(e),
        },
{
    let ghost start = out@;
    let ghost mut segs: Seq<Seq<u8>> = Seq::empty();
    let mut i: usize = 0;
    proof {
        assert(packets@.skip(0) =~= packets@);
        assert(after(segs, encode_all(packets@)) == encode_all(packets@)) by {
            match encode_all(packets@) {
                Ok(ws) => assert(segs + ws =~= ws),
                Err(_) => {},
            }
        }
    }
    while i < packets.len()
        invariant
            i <= packets@.len(),
            start == old(out)@,
            out@ == start + segs.flatten(),
            segs.len() == i,
            forall|k: int| 0 <= k < segs.len() ==> #[trigger] is_frame(segs[k]),
            encode_all(packets@) == after(segs, encode_all(packets@.skip(i as int))),
        decreases packets@.len() - i,
    {
        let ghost before = out@;
        let ghost rest = packets@.skip(i as int);
        proof {
            assert(rest[0] == packets@[i as int]);
            assert(rest.drop_first() =~= packets@.skip(i + 1));
        }
        let written = packets[i].marshal(out);
        match written {
            Ok(()) => {},
            Err(e) => {
                proof {
                    assert(start =~= out@.subrange(0, start.len() as int)) by {
                        assert(start =~= before.subrange(0, start.len() as int));
                        assert(before =~= out@.subrange(0, before.len() as int));
                    }
                    assert(start.is_prefix_of(out@));
                }
                return Err(e);
            },
        }
        proof {
            let f = packets@[i as int].encoding()->Ok_0;
            segs.lemma_flatten_push(f);
            match encode_all(packets@.skip(i + 1)) {
                Ok(ws) => assert(segs + (seq![f] + ws) =~= segs.push(f) + ws),
                Err(_) => {},
            }
            segs = segs.push(f);
            assert(out@ =~= start + segs.flatten());
        }
        i += 1;
    }
    proof {
        assert(packets@.skip(i as int) =~= Seq::<T>::empty());
        assert(segs + Seq::<Seq<u8>>::empty() =~= segs);
        assert(out@.skip(start.len() as int) =~= segs.flatten());
        lemma_split_concat(segs);
        lemma_total_length(segs.flatten());
        if packets@.len() == 0 {
            assert(segs.flatten() =~= Seq::<u8>::empty());
            assert(out@ =~= start);
        }
    }
    Ok(())
}

/// `a` and `b` are the same packet: equal values of a known kind, or raw
/// packets with the same bytes.
pub open spec fn same_packet<P>(a: Decoded<P>, b: Decoded<P>) -> bool {
    match (a, b) {
        (Decoded::Known(x), Decoded::Known(y)) => x == y,
        (Decoded::Raw(x), Decoded::Raw(y)) => x@ == y@,
        _ => false,
    }
}

/// When every packet has a wire form, there is one per packet, in order.
pub proof fn lemma_encode_all<T: Packet>(ps: Seq<T>)
    requires
        encode_all(ps) is Ok,
    ensures
        encode_all(ps)->Ok_0.len() == ps.len(),
        forall|i: int|
            0 <= i < ps.len() ==> #[trigger] ps[i].encoding() == Ok::<Seq<u8>, Error>(
                encode_all(ps)->Ok_0[i],
            ),
    decreases ps.len(),
{
    if ps.len() > 0 {
        let rest = ps.drop_first();
        lemma_encode_all(rest);
        let ws = encode_all(ps)->Ok_0;
        assert forall|i: int| 0 <= i < ps.len() implies #[trigger] ps[i].encoding() == Ok::<
            Seq<u8>,
            Error,
        >(ws[i]) by {
            if i > 0 {
                assert(ps[i] == rest[i - 1]);
            }
        }
    }
}

/// Sub-packets that all decode are passed over: what follows them alone
/// decides the first failure.
pub proof fn lemma_decoded_prefix<P: Unmarshal>(fs: Seq<Seq<u8>>, tail: Seq<u8>)
    requires
        forall|i: int| 0 <= i < fs.len() ==> #[trigger] is_frame(fs[i]),
        forall|i: int| 0 <= i < fs.len() ==> #[trigger] frame_decodes::<P>(fs[i]),
    ensures
        first_failure::<P>(fs.flatten() + tail) == first_failure::<P>(tail),
    decreases fs.len(),
{
    if fs.len() == 0 {
        assert(fs.flatten() + tail =~= tail);
    } else {
        let f = fs[0];
        let rest = fs.drop_first();
        assert forall|i: int| 0 <= i < rest.len() implies #[trigger] is_frame(rest[i]) by {
            assert(rest[i] == fs[i + 1]);
        }
        assert forall|i: int| 0 <= i < rest.len() implies #[trigger] frame_decodes::<P>(
            rest[i],
        ) by {
            assert(rest[i] == fs[i + 1]);
        }
        lemma_decoded_prefix::<P>(rest, tail);
        let s = fs.flatten() + tail;
        assert(is_frame(f));
        assert(frame_decodes::<P>(f));
        assert(s =~= f + (rest.flatten() + tail));
        assert(parse_header(s) == parse_header(f)) by {
            assert(s[0] == f[0] && s[1] == f[1] && s[2] == f[2] && s[3] == f[3]);
        }
        let n = frame_len(s) as int;
        lemma_split_step(s);
        assert(s.take(n) =~= f);
        assert(s.skip(n) =~= rest.flatten() + tail);
    }
}

/// Bytes that hold no whole sub-packet, a fragment shorter than a header or
/// a header that announces more than remains, make the call too short even
/// after sub-packets that all decode.
pub proof fn lemma_short_after_decoded<P: Unmarshal>(fs: Seq<Seq<u8>>, tail: Seq<u8>)
    requires
        forall|i: int| 0 <= i < fs.len() ==> #[trigger] is_frame(fs[i]),
        forall|i: int| 0 <= i < fs.len() ==> #[trigger] frame_decodes::<P>(fs[i]),
        tail.len() > 0,
        !starts_with_frame(tail),
    ensures
        first_failure::<P>(fs.flatten() + tail) == Some(Error::PacketTooShort),
{
    lemma_decoded_prefix::<P>(fs, tail);
}

/// A buffer of sub-packets that all decode is not rejected, and splits into
/// exactly those sub-packets, in order: each is then handed to its decoder,
/// and its value stands at its place in the result.
pub proof fn lemma_all_decode<P: Unmarshal>(fs: Seq<Seq<u8>>)
    requires
        forall|i: int| 0 <= i < fs.len() ==> #[trigger] is_frame(fs[i]),
        forall|i: int| 0 <= i < fs.len() ==> #[trigger] frame_decodes::<P>(fs[i]),
    ensures
        first_failure::<P>(fs.flatten()) is None,
        frames(fs.flatten()) == fs,
        forall|i: int, d: Decoded<P>|
            0 <= i < fs.len() && needs_decoder(fs[i]) && #[trigger] decoded_ok(d, fs[i]) ==> d
                == Decoded::<P>::Known(decode_frame::<P>(fs[i])->Ok_0),
{
    let e = Seq::<u8>::empty();
    lemma_decoded_prefix::<P>(fs, e);
    assert(fs.flatten() + e =~= fs.flatten());
    lemma_split_concat(fs);
}

/// Decoding what `marshal` writes gives the packets back, in order, when each
/// known packet's decoder reads back what the packet wrote and no raw packet
/// holds bytes that a decoder would claim.
pub proof fn lemma_round_trip<P: Packet + Unmarshal>(ps: Seq<Decoded<P>>)
    requires
        encode_all(ps) is Ok,
        forall|i: int| 0 <= i < ps.len() ==> is_frame(#[trigger] ps[i].encoding()->Ok_0),
        forall|i: int|
            0 <= i < ps.len() ==> match #[trigger] ps[i] {
                Decoded::Known(p) => needs_decoder(p.encoding()->Ok_0) && decode_frame::<P>(
                    p.encoding()->Ok_0,
                ) == Ok::<P, Error>(p),
                Decoded::Raw(p) => !needs_decoder(p@),
            },
    ensures
        ({
            let ws = encode_all(ps)->Ok_0;
            &&& first_failure::<P>(ws.flatten()) is None
            &&& frames(ws.flatten()) == ws
            &&& ws.len() == ps.len()
            &&& forall|i: int, d: Decoded<P>|
                0 <= i < ps.len() && #[trigger] decoded_ok(d, ws[i]) ==> same_packet(d, ps[i])
        }),
{
    let ws = encode_all(ps)->Ok_0;
    lemma_encode_all(ps);
    assert forall|i: int| 0 <= i < ws.len() implies #[trigger] is_frame(ws[i]) by {
        assert(ps[i].encoding() == Ok::<Seq<u8>, Error>(ws[i]));
        assert(is_frame(ps[i].encoding()->Ok_0));
    }
    assert forall|i: int| 0 <= i < ws.len() implies #[trigger] frame_decodes::<P>(ws[i]) by {
        assert(ps[i].encoding() == Ok::<Seq<u8>, Error>(ws[i]));
        assert(is_frame(ps[i].encoding()->Ok_0));
    }
    let e = Seq::<u8>::empty();
    lemma_decoded_prefix::<P>(ws, e);
    assert(ws.flatten() + e =~= ws.flatten());
    lemma_split_concat(ws);
    assert forall|i: int, d: Decoded<P>|
        0 <= i < ps.len() && #[trigger] decoded_ok(d, ws[i]) implies same_packet(d, ps[i]) by {
        assert(ps[i].encoding() == Ok::<Seq<u8>, Error>(ws[i]));
    }
}

} // verus!
