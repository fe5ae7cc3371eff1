//! The model of a compound buffer: a run of self-framed sub-packets, each
//! announcing its own size in its header.
use vstd::prelude::*;

use crate::error::Error;
use crate::header::parse_header;

verus! {

/// Size in bytes of the sub-packet that starts `s`, as its header announces.
pub open spec fn frame_len(s: Seq<u8>) -> nat {
    parse_header(s).packet_len()
}

/// The bytes at the start of `s` hold a header and the whole sub-packet it
/// announces.
pub open spec fn starts_with_frame(s: Seq<u8>) -> bool {
    s.len() >= 4 && frame_len(s) <= s.len()
}

/// `s` is exactly one sub-packet: its header announces its whole size.
pub open spec fn is_frame(s: Seq<u8>) -> bool {
    s.len() >= 4 && frame_len(s) == s.len()
}

/// `s` splits into sub-packets with nothing left over.
pub open spec fn well_framed(s: Seq<u8>) -> bool
    decreases s.len(),
{
    if s.len() == 0 {
        true
    } else if !starts_with_frame(s) {
        false
    } else {
        well_framed(s.skip(frame_len(s) as int))
    }
}

/// The sub-packets at the start of `s`, in order, up to the end of `s` or up
/// to the first place where no whole sub-packet starts.
pub open spec fn frames(s: Seq<u8>) -> Seq<Seq<u8>>
    decreases s.len(),
{
    if !starts_with_frame(s) {
        Seq::empty()
    } else {
        seq![s.take(frame_len(s) as int)] + frames(s.skip(frame_len(s) as int))
    }
}

/// What splitting a whole datagram gives: its sub-packets, or the error that
/// rejects it. An empty datagram holds no packet and is invalid.
pub open spec fn split(s: Seq<u8>) -> Result<Seq<Seq<u8>>, Error> {
    if s.len() == 0 {
        Err(Error::InvalidHeader)
    } else if well_framed(s) {
        Ok(frames(s))
    } else {
        Err(Error::PacketTooShort)
    }
}

/// The sum of the sizes that the sub-packets' headers announce.
pub open spec fn announced_len(fs: Seq<Seq<u8>>) -> nat
    decreases fs.len(),
{
    if fs.len() == 0 {
        0
    } else {
        frame_len(fs[0]) + announced_len(fs.drop_first())
    }
}

/// One step of splitting: a whole sub-packet at the start of `s` is the first
/// of its frames, and the rest of `s` decides the rest.
pub proof fn lemma_split_step(s: Seq<u8>)
    requires
        starts_with_frame(s),
    ensures
        frame_len(s) >= 4,
        is_frame(s.take(frame_len(s) as int)),
        well_framed(s) == well_framed(s.skip(frame_len(s) as int)),
        frames(s) == seq![s.take(frame_len(s) as int)] + frames(s.skip(frame_len(s) as int)),
{
    let n = frame_len(s) as int;
    assert(parse_header(s.take(n)) == parse_header(s));
}

/// Every piece that splitting yields is one whole sub-packet of `s`.
pub proof fn lemma_frames_are_frames(s: Seq<u8>)
    ensures
        forall|i: int| 0 <= i < frames(s).len() ==> #[trigger] is_frame(frames(s)[i]),
    decreases s.len(),
{
    if starts_with_frame(s) {
        lemma_split_step(s);
        let n = frame_len(s) as int;
        lemma_frames_are_frames(s.skip(n));
        assert forall|i: int| 0 <= i < frames(s).len() implies #[trigger] is_frame(
            frames(s)[i],
        ) by {
            if i > 0 {
                assert(frames(s)[i] == frames(s.skip(n))[i - 1]);
            }
        }
    }
}

/// A buffer that splits into sub-packets is as long as its sub-packets'
/// headers say, summed.
pub proof fn lemma_total_length(s: Seq<u8>)
    requires
        well_framed(s),
    ensures
        s.len() == announced_len(frames(s)),
    decreases s.len(),
{
    if s.len() > 0 {
        lemma_split_step(s);
        let n = frame_len(s) as int;
        let fs = frames(s);
        lemma_total_length(s.skip(n));
        assert(fs.drop_first() == frames(s.skip(n)));
        assert(parse_header(fs[0]) == parse_header(s));
    }
}

/// Whole sub-packets at the front of a buffer are split off one by one, and
/// what follows them alone decides the rest.
pub proof fn lemma_frames_then(fs: Seq<Seq<u8>>, tail: Seq<u8>)
    requires
        forall|i: int| 0 <= i < fs.len() ==> #[trigger] is_frame(fs[i]),
    ensures
        well_framed(fs.flatten() + tail) == well_framed(tail),
        frames(fs.flatten() + tail) == fs + frames(tail),
    decreases fs.len(),
{
    if fs.len() == 0 {
        assert(fs.flatten() + tail =~= tail);
        assert(fs + frames(tail) =~= frames(tail));
    } else {
        let f = fs[0];
        let rest = fs.drop_first();
        assert forall|i: int| 0 <= i < rest.len() implies #[trigger] is_frame(rest[i]) by {
            assert(rest[i] == fs[i + 1]);
        }
        lemma_frames_then(rest, tail);
        let s = fs.flatten() + tail;
        assert(is_frame(f));
        assert(s =~= f + (rest.flatten() + tail));
        assert(parse_header(s) == parse_header(f)) by {
            assert(s[0] == f[0] && s[1] == f[1] && s[2] == f[2] && s[3] == f[3]);
        }
        let n = frame_len(s) as int;
        lemma_split_step(s);
        assert(s.take(n) =~= f);
        assert(s.skip(n) =~= rest.flatten() + tail);
        assert(frames(s) =~= fs + frames(tail));
    }
}

/// Sub-packets written back to back split into exactly those sub-packets, in
/// their order: splitting undoes concatenation.
pub proof fn lemma_split_concat(fs: Seq<Seq<u8>>)
    requires
        forall|i: int| 0 <= i < fs.len() ==> #[trigger] is_frame(fs[i]),
    ensures
        well_framed(fs.flatten()),
        frames(fs.flatten()) == fs,
        fs.len() > 0 ==> split(fs.flatten()) == Ok::<Seq<Seq<u8>>, Error>(fs),
{
    let e = Seq::<u8>::empty();
    lemma_frames_then(fs, e);
    assert(fs.flatten() + e =~= fs.flatten());
    assert(!starts_with_frame(e));
    assert(fs + frames(e) =~= fs);
    if fs.len() > 0 {
        assert(fs.flatten() =~= fs[0] + fs.drop_first().flatten());
    }
}

/// A sub-packet whose header announces more bytes than remain makes the whole
/// buffer too short, however many whole sub-packets come before it; those are
/// still the ones that splitting reaches first.
pub proof fn lemma_truncated_tail(fs: Seq<Seq<u8>>, tail: Seq<u8>)
    requires
        forall|i: int| 0 <= i < fs.len() ==> #[trigger] is_frame(fs[i]),
        tail.len() >= 4,
        frame_len(tail) > tail.len(),
    ensures
        split(fs.flatten() + tail) == Err::<Seq<Seq<u8>>, Error>(Error::PacketTooShort),
        frames(fs.flatten() + tail) == fs,
{
    lemma_frames_then(fs, tail);
    assert(fs + frames(tail) =~= fs);
}

} // verus!
