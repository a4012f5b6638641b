use reliudp::fragment::{Fragment, FragmentMeta};
use reliudp::udp_packet::{Packet, UdpPacket, UdpPacketError};

#[test]
fn udp_fail_not_big_enough() {
    let received_message: Vec<u8> = vec![0u8, 0u8, 0u8, 0u8, 1u8, 2u8, 5u8];
    let received_fragment = UdpPacket::new(received_message);
    let e = received_fragment.compute_packet().unwrap_err();
    assert_eq!(e, UdpPacketError::NotBigEnough);
}

#[test]
fn udp_fail_invalid_crc() {
    let received_message: Vec<u8> = vec![0; 20];
    let received_udp_message = UdpPacket::new(received_message);
    let e = received_udp_message.compute_packet().unwrap_err();
    assert_eq!(e, UdpPacketError::InvalidCrc);
}

#[test]
fn udp_success_fragment_parse() {
    let received_message_bytes: Vec<u8> = vec![0x12, 0x25, 0xEF, 0xFF, 0, 0, 0, 0, 0, 0, 0, 1];
    let udp_message = UdpPacket::new(received_message_bytes);
    let packet = udp_message.compute_packet().unwrap();
    if let Packet::Fragment(Fragment { seq_id, frag_id, frag_total, data: b, frag_meta }) = packet {
        assert_eq!(seq_id, 0);
        assert_eq!(frag_id, 0);
        assert_eq!(frag_total, 0);
        assert_eq!(frag_meta, FragmentMeta::Forgettable);
        assert_eq!(b.len(), 1);
        assert_eq!(b.as_slice(), &[1]);
    } else {
        panic!("Received packet was not a meta message");
    }
}

#[test]
fn udp_fail_fragment_invalid_layout() {
    let received_message_bytes: Vec<u8> = vec![0xF8, 0xF1, 0xE3, 0x31, 0, 0, 0, 0, 254, 253];
    let udp_message = UdpPacket::new(received_message_bytes);
    let err = udp_message.compute_packet().unwrap_err();
    assert_eq!(err, UdpPacketError::InvalidFragLayout(254, 253));
}

#[test]
fn udp_success_ack_parse() {
    let received_message_bytes: Vec<u8> =
        vec![0x05, 0xCD, 0x02, 0xE4, 0, 0, 0, 5, 255, 0, 255, 255, 255, 255, 255, 255, 255, 255];
    let udp_message = UdpPacket::new(received_message_bytes);
    let packet = udp_message.compute_packet().unwrap();
    if let Packet::Ack(seq_id, b) = packet {
        assert_eq!(seq_id, 5);
        assert_eq!(b.len(), 8);
    } else {
        panic!("Received packet was not a fragment ACK");
    }
}

#[test]
fn udp_success_syn_parse() {
    let received_message_bytes: Vec<u8> = vec![0x55, 0xE1, 0x6C, 0x47, 0, 0, 0, 0, 255, 1];
    let udp_message = UdpPacket::new(received_message_bytes);
    let packet = udp_message.compute_packet().unwrap();
    if let Packet::Syn = packet {
        // Ok
    } else {
        panic!("Received packet was not a fragment SYN");
    }
}

#[test]
fn udp_success_synack_parse() {
    let received_message_bytes: Vec<u8> = vec![0xCC, 0xE8, 0x3D, 0xFD, 0, 0, 0, 0, 255, 2];
    let udp_message = UdpPacket::new(received_message_bytes);
    let packet = udp_message.compute_packet().unwrap();
    if let Packet::SynAck = packet {
        // Ok
    } else {
        panic!("Received packet was not a fragment SYNACK");
    }
}

#[test]
fn udp_ser_de_ack() {
    let ack1 = Packet::Ack(5, vec![0u8; 8]);
    let udp_packet = UdpPacket::from_packet(&ack1);
    let ack2 = udp_packet.compute_packet().unwrap();
    if !ack1.cmp_with(&ack2) {
        panic!("{:?} != {:?}, ack serialized is different from deserialized", ack1, ack2);
    }
}

#[test]
fn udp_ser_de_syn_synack_others() {
    let syn1: Packet = Packet::Syn;
    let synack1: Packet = Packet::SynAck;
    let end1: Packet = Packet::End(5);
    let abort1: Packet = Packet::Abort(10);
    let heartbeat1: Packet = Packet::Heartbeat;
    let syn_packet = UdpPacket::from_packet(&syn1);
    let synack_packet = UdpPacket::from_packet(&synack1);
    let end_packet = UdpPacket::from_packet(&end1);
    let abort_packet = UdpPacket::from_packet(&abort1);
    let heartbeat_packet = UdpPacket::from_packet(&heartbeat1);

    let syn2 = syn_packet.compute_packet().unwrap();
    let synack2 = synack_packet.compute_packet().unwrap();
    let end2 = end_packet.compute_packet().unwrap();
    let abort2 = abort_packet.compute_packet().unwrap();
    let heartbeat2 = heartbeat_packet.compute_packet().unwrap();
    if !syn1.cmp_with(&syn2) {
        panic!("{:?} != {:?}, syn serialized is different from deserialized", syn1, syn2);
    }
    if !synack1.cmp_with(&synack2) {
        panic!("{:?} != {:?}, synack serialized is different from deserialized", synack1, synack2);
    }
    if !end1.cmp_with(&end2) {
        panic!("{:?} != {:?}, end serialized is different from deserialized", end1, end2);
    }
    if !abort1.cmp_with(&abort2) {
        panic!("{:?} != {:?}, abort serialized is different from deserialized", abort1, abort2);
    }
    if !heartbeat1.cmp_with(&heartbeat2) {
        panic!(
            "{:?} != {:?}, heartbeat serialized is different from deserialized",
            heartbeat1, heartbeat2
        );
    }
}

#[test]
fn udp_success_frag_conversions() {
    let sent_fragment = Fragment {
        seq_id: 12,
        frag_id: 0,
        frag_total: 0,
        frag_meta: FragmentMeta::Key,
        data: vec![1u8, 2, 3, 4],
    };
    let udp_message: UdpPacket = UdpPacket::from_fragment(&sent_fragment);

    let received_packet = udp_message.compute_packet().unwrap();

    if let Packet::Fragment(Fragment { seq_id, frag_id, frag_total, data, frag_meta }) =
        received_packet
    {
        assert_eq!(seq_id, sent_fragment.seq_id);
        assert_eq!(frag_id, sent_fragment.frag_id);
        assert_eq!(frag_total, sent_fragment.frag_total);
        assert_eq!(frag_meta, FragmentMeta::Key);
        assert_eq!(data, sent_fragment.data);
    } else {
        panic!("Received message is not of fragment type!")
    }
}

#[test]
fn udp_fail_invalid_frag_meta() {
    // a fragment header with a valid checksum but frag_meta byte 3
    let mut body: Vec<u8> = vec![0, 0, 0, 7, 0, 0, 3, 42];
    let crc = reliudp::checksum::crc32_ieee(body.as_slice());
    let mut bytes: Vec<u8> = crc.to_be_bytes().to_vec();
    bytes.append(&mut body);
    let e = UdpPacket::new(bytes).compute_packet().unwrap_err();
    assert_eq!(e, UdpPacketError::InvalidFragMeta);
}

#[test]
fn udp_crc_header_matches_body() {
    // every emitted datagram carries crc32(bytes[4..]) in bytes[0..4]
    let packets = vec![
        Packet::Syn,
        Packet::Ack(77, vec![0b101u8]),
        Packet::Fragment(Fragment {
            seq_id: 3,
            frag_id: 1,
            frag_total: 2,
            frag_meta: FragmentMeta::KeyExpirable,
            data: vec![9, 8, 7],
        }),
        Packet::End(1),
    ];
    for p in &packets {
        let datagram = UdpPacket::from_packet(p);
        let bytes = datagram.as_bytes().to_vec();
        let crc = reliudp::checksum::crc32_ieee(&bytes[4..]);
        assert_eq!(&bytes[0..4], crc.to_be_bytes().as_slice());
    }
}
