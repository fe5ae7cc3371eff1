use vstd::prelude::*;

use crate::error::Error;

verus! {

/// Size in bytes of the fixed header that starts every RTCP packet.
pub const HEADER_LENGTH: usize = 4;

/// The type code of an RTCP packet.
#[derive(Debug, Clone, Copy, PartialEq, Eq)]
pub enum PacketType {
    SenderReport,
    ReceiverReport,
    SourceDescription,
    Goodbye,
    TransportSpecificFeedback,
    PayloadSpecificFeedback,
    /// Any other code, kept as it was read.
    Unrecognized(u8),
}

/// The code of each known packet type on the wire.
pub const TYPE_SENDER_REPORT: u8 = 200;
pub const TYPE_RECEIVER_REPORT: u8 = 201;
pub const TYPE_SOURCE_DESCRIPTION: u8 = 202;
pub const TYPE_GOODBYE: u8 = 203;
pub const TYPE_TRANSPORT_SPECIFIC_FEEDBACK: u8 = 205;
pub const TYPE_PAYLOAD_SPECIFIC_FEEDBACK: u8 = 206;

/// The packet type that a code on the wire stands for.
pub open spec fn type_of_code(code: u8) -> PacketType {
    if code == TYPE_SENDER_REPORT {
        PacketType::SenderReport
    } else if code == TYPE_RECEIVER_REPORT {
        PacketType::ReceiverReport
    } else if code == TYPE_SOURCE_DESCRIPTION {
        PacketType::SourceDescription
    } else if code == TYPE_GOODBYE {
        PacketType::Goodbye
    } else if code == TYPE_TRANSPORT_SPECIFIC_FEEDBACK {
        PacketType::TransportSpecificFeedback
    } else if code == TYPE_PAYLOAD_SPECIFIC_FEEDBACK {
        PacketType::PayloadSpecificFeedback
    } else {
        PacketType::Unrecognized(code)
    }
}

impl PacketType {
    /// The code written on the wire for this type.
    pub open spec fn spec_code(self) -> u8 {
        match self {
            PacketType::SenderReport => TYPE_SENDER_REPORT,
            PacketType::ReceiverReport => TYPE_RECEIVER_REPORT,
            PacketType::SourceDescription => TYPE_SOURCE_DESCRIPTION,
            PacketType::Goodbye => TYPE_GOODBYE,
            PacketType::TransportSpecificFeedback => TYPE_TRANSPORT_SPECIFIC_FEEDBACK,
            PacketType::PayloadSpecificFeedback => TYPE_PAYLOAD_SPECIFIC_FEEDBACK,
            PacketType::Unrecognized(c) => c,
        }
    }

    /// A type is canonical when reading its code back gives the same type:
    /// an `Unrecognized` code must not be one of the known codes.
    pub open spec fn is_canonical(self) -> bool {
        type_of_code(self.spec_code()) == self
    }

    pub fn from_code(code: u8) -> (t: PacketType)
        ensures
            t == type_of_code(code),
    {
        if code == TYPE_SENDER_REPORT {
            PacketType::SenderReport
        } else if code == TYPE_RECEIVER_REPORT {
            PacketType::ReceiverReport
        } else if code == TYPE_SOURCE_DESCRIPTION {
            PacketType::SourceDescription
        } else if code == TYPE_GOODBYE {
            PacketType::Goodbye
        } else if code == TYPE_TRANSPORT_SPECIFIC_FEEDBACK {
            PacketType::TransportSpecificFeedback
        } else if code == TYPE_PAYLOAD_SPECIFIC_FEEDBACK {
            PacketType::PayloadSpecificFeedback
        } else {
            PacketType::Unrecognized(code)
        }
    }

    pub fn code(&self) -> (c: u8)
        ensures
            c == self.spec_code(),
    {
        match self {
            PacketType::SenderReport => TYPE_SENDER_REPORT,
            PacketType::ReceiverReport => TYPE_RECEIVER_REPORT,
            PacketType::SourceDescription => TYPE_SOURCE_DESCRIPTION,
            PacketType::Goodbye => TYPE_GOODBYE,
            PacketType::TransportSpecificFeedback => TYPE_TRANSPORT_SPECIFIC_FEEDBACK,
            PacketType::PayloadSpecificFeedback => TYPE_PAYLOAD_SPECIFIC_FEEDBACK,
            PacketType::Unrecognized(c) => *c,
        }
    }
}

/// The fixed four-byte header shared by every RTCP packet.
///
/// Byte 0 holds the version (2 bits), the padding flag (1 bit) and the
/// count or format field (5 bits); byte 1 the packet type; bytes 2 and 3 the
/// length in 32-bit words minus one, in network byte order.
#[derive(Debug, Clone, Copy, PartialEq, Eq)]
pub struct Header {
    pub version: u8,
    pub padding: bool,
    /// Reception report count, or the feedback message format.
    pub count: u8,
    pub packet_type: PacketType,
    /// Size of the packet in 32-bit words, minus one.
    pub length: u16,
}

/// The header that the first four bytes of `b` encode.
pub open spec fn parse_header(b: Seq<u8>) -> Header
    recommends
        b.len() >= 4,
{
    Header {
        version: b[0] / 64,
        padding: (b[0] / 32) % 2 == 1,
        count: b[0] % 32,
        packet_type: type_of_code(b[1]),
        length: (b[2] * 256 + b[3]) as u16,
    }
}

impl Header {
    /// Every field fits its place on the wire.
    pub open spec fn wf(self) -> bool {
        &&& self.version < 4
        &&& self.count < 32
        &&& self.packet_type.is_canonical()
    }

    /// The four bytes that encode this header.
    pub open spec fn spec_bytes(self) -> Seq<u8> {
        seq![
            (self.version * 64 + (if self.padding { 32int } else { 0int }) + self.count) as u8,
            self.packet_type.spec_code(),
            (self.length / 256) as u8,
            (self.length % 256) as u8,
        ]
    }

    /// Size in bytes of the whole packet that this header announces.
    pub open spec fn packet_len(self) -> nat {
        (self.length as nat + 1) * 4
    }

    /// Decodes the header from the first four bytes of `data`; any further
    /// bytes are not read. The version is not checked.
    pub fn unmarshal(data: &[u8]) -> (r: Result<Header, Error>)
        ensures
            data@.len() < 4 ==> r == Err::<Header, Error>(Error::PacketTooShort),
            data@.len() >= 4 ==> r == Ok::<Header, Error>(parse_header(data@)),
    {
        if data.len() < HEADER_LENGTH {
            return Err(Error::PacketTooShort);
        }
        Ok(Header::from_bytes(data))
    }

    /// Decodes the header from the first four bytes of `data`, which holds at
    /// least four.
    pub fn from_bytes(data: &[u8]) -> (h: Header)
        requires
            data@.len() >= 4,
        ensures
            h == parse_header(data@),
    {
        let b0 = data[0];
        let b2 = data[2];
        let b3 = data[3];
        let version = b0 >> 6u8;
        let padding = (b0 >> 5u8) & 1u8 == 1u8;
        let count = b0 & 0x1fu8;
        let length = ((b2 as u16) << 8u16) | (b3 as u16);
        proof {
            assert(b0 >> 6u8 == b0 / 64) by (bit_vector);
            assert((b0 >> 5u8) & 1u8 == (b0 / 32) % 2) by (bit_vector);
            assert(b0 & 0x1fu8 == b0 % 32) by (bit_vector);
            assert(((b2 as u16) << 8u16) | (b3 as u16) == (b2 as u16) * 256 + (b3 as u16))
                by (bit_vector);
        }
        Header { version, padding, count, packet_type: PacketType::from_code(data[1]), length }
    }

    /// Encodes the header in four bytes. A version above 3, a count above 31,
    /// or an `Unrecognized` type that holds a known code cannot be encoded.
    pub fn marshal(&self) -> (r: Result<Vec<u8>, Error>)
        ensures
            self.wf() ==> r is Ok && r->Ok_0@ == self.spec_bytes(),
            !self.wf() ==> r == Err::<Vec<u8>, Error>(Error::InvalidHeader),
    {
        let code = self.packet_type.code();
        let canonical = match self.packet_type {
            PacketType::Unrecognized(c) => matches!(PacketType::from_code(c), PacketType::Unrecognized(_)),
            _ => true,
        };
        if self.version >= 4 || self.count >= 32 || !canonical {
            return Err(Error::InvalidHeader);
        }
        let version = self.version;
        let count = self.count;
        let pad: u8 = if self.padding { 1 } else { 0 };
        let length = self.length;
        let b0 = (version << 6u8) | (pad << 5u8) | count;
        let b2 = (length / 256) as u8;
        let b3 = (length % 256) as u8;
        proof {
            assert(version < 4 && pad < 2 && count < 32 ==> (version << 6u8) | (pad << 5u8) | count
                == version * 64 + pad * 32 + count) by (bit_vector);
        }
        let mut out: Vec<u8> = Vec::with_capacity(HEADER_LENGTH);
        out.push(b0);
        out.push(code);
        out.push(b2);
        out.push(b3);
        assert(out@ =~= self.spec_bytes());
        Ok(out)
    }
}

/// Decoding the bytes of a well-formed header gives that header back.
pub proof fn lemma_header_round_trip(h: Header)
    requires
        h.wf(),
    ensures
        parse_header(h.spec_bytes()) == h,
{
    let b = h.spec_bytes();
    let pad: int = if h.padding { 32 } else { 0 };
    assert(b[0] == h.version * 64 + pad + h.count);
    assert(b[0] / 64 == h.version);
    assert(b[0] % 32 == h.count);
    assert((b[0] / 32) % 2 == 1 <==> h.padding);
    assert(b[2] * 256 + b[3] == h.length);
}

/// Encoding the header read from four bytes gives those bytes back.
pub proof fn lemma_header_bytes_round_trip(b: Seq<u8>)
    requires
        b.len() >= 4,
    ensures
        parse_header(b).wf(),
        parse_header(b).spec_bytes() == b.subrange(0, 4),
{
    let h = parse_header(b);
    assert(b[0] == (b[0] / 64) * 64 + (if (b[0] / 32) % 2 == 1 { 32int } else { 0int }) + b[0] % 32);
    assert(h.spec_bytes() =~= b.subrange(0, 4));
}

} // verus!
