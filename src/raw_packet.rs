use vstd::prelude::*;

use crate::error::Error;
use crate::framing::{frame_len, is_frame};
use crate::header::{parse_header, Header};

verus! {

/// A sub-packet that no decoder understands, kept byte for byte so that it
/// can be forwarded unchanged.
#[derive(Debug, PartialEq, Eq)]
pub struct RawPacket {
    data: Vec<u8>,
}

impl View for RawPacket {
    type V = Seq<u8>;

    /// The bytes of the sub-packet, header included.
    closed spec fn view(&self) -> Seq<u8> {
        self.data@
    }
}

impl RawPacket {
    /// The bytes always form exactly one sub-packet.
    #[verifier::type_invariant]
    spec fn inv(self) -> bool {
        is_frame(self.data@)
    }

    /// Copies one sub-packet. Fewer than four bytes, or fewer than the header
    /// announces, are too short; more than it announces is an invalid header.
    pub fn unmarshal(data: &[u8]) -> (r: Result<RawPacket, Error>)
        ensures
            is_frame(data@) ==> r is Ok && r->Ok_0@ == data@,
            (data@.len() < 4 || frame_len(data@) > data@.len()) ==> r == Err::<RawPacket, Error>(
                Error::PacketTooShort,
            ),
            (data@.len() >= 4 && frame_len(data@) < data@.len()) ==> r == Err::<RawPacket, Error>(
                Error::InvalidHeader,
            ),
    {
        let header = match Header::unmarshal(data) {
            Ok(h) => h,
            Err(e) => return Err(e),
        };
        let size = (header.length as usize + 1) * 4;
        if size > data.len() {
            return Err(Error::PacketTooShort);
        }
        if size < data.len() {
            return Err(Error::InvalidHeader);
        }
        let mut bytes: Vec<u8> = Vec::with_capacity(data.len());
        let mut i: usize = 0;
        while i < data.len()
            invariant
                i <= data@.len(),
                bytes@ == data@.take(i as int),
            decreases data@.len() - i,
        {
            bytes.push(data[i]);
            i += 1;
            assert(bytes@ =~= data@.take(i as int));
        }
        assert(data@.take(data@.len() as int) =~= data@);
        assert(frame_len(data@) == size);
        Ok(RawPacket { data: bytes })
    }

    /// The header at the start of the packet.
    pub fn header(&self) -> (h: Header)
        ensures
            h == parse_header(self@),
    {
        proof {
            use_type_invariant(self);
        }
        Header::from_bytes(self.data.as_slice())
    }

    /// A raw packet addresses no synchronization source that the core knows of.
    pub fn destination_ssrc(&self) -> (r: Vec<u32>)
        ensures
            r@.len() == 0,
    {
        Vec::new()
    }

    /// Appends the packet's bytes, exactly as they were read: one whole
    /// sub-packet.
    pub fn marshal(&self, out: &mut Vec<u8>)
        ensures
            final(out)@ == old(out)@ + self@,
            is_frame(self@),
    {
        proof {
            use_type_invariant(self);
        }
        let ghost start = out@;
        let mut i: usize = 0;
        while i < self.data.len()
            invariant
                i <= self.data@.len(),
                out@ == start + self.data@.take(i as int),
            decreases self.data@.len() - i,
        {
            out.push(self.data[i]);
            i += 1;
            assert(out@ =~= start + self.data@.take(i as int));
        }
        assert(self.data@.take(self.data@.len() as int) =~= self.data@);
    }

    /// The size in bytes of the packet.
    pub fn len(&self) -> (n: usize)
        ensures
            n == self@.len(),
            n as nat == frame_len(self@),
    {
        proof {
            use_type_invariant(self);
        }
        self.data.len()
    }
}

} // verus!
