use vstd::prelude::*;

use crate::header::{Header, PacketType};

verus! {

/// Feedback message formats that have a decoder of their own.
pub const FORMAT_TLN: u8 = 1;
pub const FORMAT_RRR: u8 = 5;
pub const FORMAT_PLI: u8 = 1;
pub const FORMAT_SLI: u8 = 2;
pub const FORMAT_REMB: u8 = 15;

/// The decoder that a sub-packet is routed to.
#[derive(Debug, Clone, Copy, PartialEq, Eq)]
pub enum PacketKind {
    SenderReport,
    ReceiverReport,
    SourceDescription,
    Goodbye,
    TransportLayerNack,
    RapidResynchronizationRequest,
    PictureLossIndication,
    SliceLossIndication,
    ReceiverEstimatedMaximumBitrate,
    /// No decoder knows this combination: the bytes are kept as they are.
    Raw,
}

/// The dispatch table: which decoder a header selects. Every combination of
/// type and format selects one; unknown ones fall back to `Raw`.
pub open spec fn kind_of(h: Header) -> PacketKind {
    match h.packet_type {
        PacketType::SenderReport => PacketKind::SenderReport,
        PacketType::ReceiverReport => PacketKind::ReceiverReport,
        PacketType::SourceDescription => PacketKind::SourceDescription,
        PacketType::Goodbye => PacketKind::Goodbye,
        PacketType::TransportSpecificFeedback => {
            if h.count == FORMAT_TLN {
                PacketKind::TransportLayerNack
            } else if h.count == FORMAT_RRR {
                PacketKind::RapidResynchronizationRequest
            } else {
                PacketKind::Raw
            }
        },
        PacketType::PayloadSpecificFeedback => {
            if h.count == FORMAT_PLI {
                PacketKind::PictureLossIndication
            } else if h.count == FORMAT_SLI {
                PacketKind::SliceLossIndication
            } else if h.count == FORMAT_REMB {
                PacketKind::ReceiverEstimatedMaximumBitrate
            } else {
                PacketKind::Raw
            }
        },
        PacketType::Unrecognized(_) => PacketKind::Raw,
    }
}

/// Selects the decoder for a sub-packet from its header.
pub fn dispatch(header: &Header) -> (k: PacketKind)
    ensures
        k == kind_of(*header),
{
    match header.packet_type {
        PacketType::SenderReport => PacketKind::SenderReport,
        PacketType::ReceiverReport => PacketKind::ReceiverReport,
        PacketType::SourceDescription => PacketKind::SourceDescription,
        PacketType::Goodbye => PacketKind::Goodbye,
        PacketType::TransportSpecificFeedback => {
            if header.count == FORMAT_TLN {
                PacketKind::TransportLayerNack
            } else if header.count == FORMAT_RRR {
                PacketKind::RapidResynchronizationRequest
            } else {
                PacketKind::Raw
            }
        },
        PacketType::PayloadSpecificFeedback => {
            if header.count == FORMAT_PLI {
                PacketKind::PictureLossIndication
            } else if header.count == FORMAT_SLI {
                PacketKind::SliceLossIndication
            } else if header.count == FORMAT_REMB {
                PacketKind::ReceiverEstimatedMaximumBitrate
            } else {
                PacketKind::Raw
            }
        },
        PacketType::Unrecognized(_) => PacketKind::Raw,
    }
}

/// The table is total and falls back instead of rejecting: a feedback format
/// without a decoder of its own, and any type outside the known ones, select
/// the raw fallback.
pub proof fn lemma_dispatch_fallback(h: Header)
    ensures
        h.packet_type == PacketType::TransportSpecificFeedback && h.count != FORMAT_TLN && h.count
            != FORMAT_RRR ==> kind_of(h) == PacketKind::Raw,
        h.packet_type == PacketType::PayloadSpecificFeedback && h.count != FORMAT_PLI && h.count
            != FORMAT_SLI && h.count != FORMAT_REMB ==> kind_of(h) == PacketKind::Raw,
        h.packet_type is Unrecognized ==> kind_of(h) == PacketKind::Raw,
{
}

} // verus!
