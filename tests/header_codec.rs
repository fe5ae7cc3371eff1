use rtcp::dispatch::{dispatch, PacketKind};
use rtcp::error::Error;
use rtcp::header::{Header, PacketType};

fn header(count: u8, packet_type: PacketType) -> Header {
    Header { version: 2, padding: false, count, packet_type, length: 0 }
}

#[test]
fn header_unmarshal_fields() {
    let h = Header::unmarshal(&[0x81, 200, 0x00, 0x06]).unwrap();
    assert_eq!(h.version, 2);
    assert!(!h.padding);
    assert_eq!(h.count, 1);
    assert_eq!(h.packet_type, PacketType::SenderReport);
    assert_eq!(h.length, 6);
}

#[test]
fn header_unmarshal_padding_and_format() {
    let h = Header::unmarshal(&[0xbf, 206, 0x01, 0x02]).unwrap();
    assert_eq!(h.version, 2);
    assert!(h.padding);
    assert_eq!(h.count, 31);
    assert_eq!(h.packet_type, PacketType::PayloadSpecificFeedback);
    assert_eq!(h.length, 258);
}

#[test]
fn header_unmarshal_too_short() {
    assert_eq!(Header::unmarshal(&[]), Err(Error::PacketTooShort));
    assert_eq!(Header::unmarshal(&[0x80]), Err(Error::PacketTooShort));
    assert_eq!(Header::unmarshal(&[0x80, 200]), Err(Error::PacketTooShort));
    assert_eq!(Header::unmarshal(&[0x80, 200, 0]), Err(Error::PacketTooShort));
}

#[test]
fn header_reads_only_four_bytes() {
    let h = Header::unmarshal(&[0x80, 203, 0x00, 0x01, 0xde, 0xad, 0xbe, 0xef]).unwrap();
    assert_eq!(h.packet_type, PacketType::Goodbye);
    assert_eq!(h.length, 1);
}

#[test]
fn header_version_is_not_checked() {
    let h = Header::unmarshal(&[0x40, 201, 0x00, 0x00]).unwrap();
    assert_eq!(h.version, 1);
    assert_eq!(h.packet_type, PacketType::ReceiverReport);
}

#[test]
fn header_unrecognized_type_is_kept() {
    let h = Header::unmarshal(&[0x80, 204, 0x00, 0x02]).unwrap();
    assert_eq!(h.packet_type, PacketType::Unrecognized(204));
    assert_eq!(h.marshal().unwrap(), vec![0x80, 204, 0x00, 0x02]);
}

#[test]
fn header_marshal_layout() {
    let h = Header {
        version: 2,
        padding: true,
        count: 5,
        packet_type: PacketType::TransportSpecificFeedback,
        length: 0x0102,
    };
    assert_eq!(h.marshal().unwrap(), vec![0xa5, 205, 0x01, 0x02]);
}

#[test]
fn header_round_trip() {
    let bytes = [0xa5, 202, 0xff, 0x10];
    let h = Header::unmarshal(&bytes).unwrap();
    assert_eq!(h.marshal().unwrap(), bytes.to_vec());
    assert_eq!(Header::unmarshal(&h.marshal().unwrap()).unwrap(), h);
}

#[test]
fn header_marshal_rejects_what_does_not_fit() {
    let mut h = header(32, PacketType::SenderReport);
    assert_eq!(h.marshal(), Err(Error::InvalidHeader));
    h.count = 0;
    h.version = 4;
    assert_eq!(h.marshal(), Err(Error::InvalidHeader));
    let h = header(0, PacketType::Unrecognized(200));
    assert_eq!(h.marshal(), Err(Error::InvalidHeader));
}

#[test]
fn packet_type_codes() {
    assert_eq!(PacketType::from_code(200), PacketType::SenderReport);
    assert_eq!(PacketType::from_code(205), PacketType::TransportSpecificFeedback);
    assert_eq!(PacketType::from_code(7), PacketType::Unrecognized(7));
    assert_eq!(PacketType::Goodbye.code(), 203);
    assert_eq!(PacketType::Unrecognized(99).code(), 99);
}

#[test]
fn dispatch_table_fixed_types() {
    assert_eq!(dispatch(&header(3, PacketType::SenderReport)), PacketKind::SenderReport);
    assert_eq!(dispatch(&header(0, PacketType::ReceiverReport)), PacketKind::ReceiverReport);
    assert_eq!(dispatch(&header(2, PacketType::SourceDescription)), PacketKind::SourceDescription);
    assert_eq!(dispatch(&header(1, PacketType::Goodbye)), PacketKind::Goodbye);
}

#[test]
fn dispatch_table_transport_feedback() {
    let t = PacketType::TransportSpecificFeedback;
    assert_eq!(dispatch(&header(1, t)), PacketKind::TransportLayerNack);
    assert_eq!(dispatch(&header(5, t)), PacketKind::RapidResynchronizationRequest);
    assert_eq!(dispatch(&header(2, t)), PacketKind::Raw);
    assert_eq!(dispatch(&header(31, t)), PacketKind::Raw);
}

#[test]
fn dispatch_table_payload_feedback() {
    let t = PacketType::PayloadSpecificFeedback;
    assert_eq!(dispatch(&header(1, t)), PacketKind::PictureLossIndication);
    assert_eq!(dispatch(&header(2, t)), PacketKind::SliceLossIndication);
    assert_eq!(dispatch(&header(15, t)), PacketKind::ReceiverEstimatedMaximumBitrate);
    assert_eq!(dispatch(&header(5, t)), PacketKind::Raw);
}

#[test]
fn dispatch_table_unknown_type() {
    assert_eq!(dispatch(&header(1, PacketType::Unrecognized(204))), PacketKind::Raw);
    assert_eq!(dispatch(&header(15, PacketType::Unrecognized(0))), PacketKind::Raw);
}
