//! Framing and dispatch core of RTCP: the fixed packet header codec, the
//! splitting of compound packets into sub-packets, the table that routes each
//! sub-packet to a decoder, and the serializer of packet sequences.
pub mod dispatch;
pub mod error;
pub mod framing;
pub mod header;
pub mod packet;
pub mod raw_packet;
