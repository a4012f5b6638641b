use reliudp::rudp::{MessagePriority, MessageType, RUdpSocket, SocketEvent, SocketStatus};
use reliudp::rudp_server::RUdpServer;
use reliudp::udp_packet::{Packet, UdpPacket};

/// Deliver every queued datagram of `from` into `to`, except those whose
/// position (0-based) is listed in `drop`.
fn deliver_except(from: &mut RUdpSocket, to: &mut RUdpSocket, drop: &[usize]) -> usize {
    let datagrams = from.drain_outgoing_datagrams();
    let mut delivered = 0;
    for (i, d) in datagrams.into_iter().enumerate() {
        if !drop.contains(&i) {
            to.add_received_packet(UdpPacket::new(d));
            delivered += 1;
        }
    }
    delivered
}

fn deliver_all(from: &mut RUdpSocket, to: &mut RUdpSocket) -> usize {
    deliver_except(from, to, &[])
}

/// A connected client/server socket pair, made by a full handshake.
fn handshake(now: u64) -> (RUdpSocket, RUdpSocket) {
    let mut client = RUdpSocket::new_client(now);
    assert_eq!(client.status(), SocketStatus::SynSent(now));
    let syn_datagrams = client.drain_outgoing_datagrams();
    assert_eq!(syn_datagrams.len(), 1);
    let mut server =
        RUdpSocket::new_incoming(UdpPacket::new(syn_datagrams.into_iter().next().unwrap()), now)
            .ok()
            .unwrap();
    assert_eq!(server.status(), SocketStatus::Connected);
    deliver_all(&mut server, &mut client);
    client.next_tick(now + 1);
    assert_eq!(client.status(), SocketStatus::Connected);
    let events = client.drain_events();
    assert!(matches!(events.as_slice(), [SocketEvent::Connected]));
    let events = server.drain_events();
    assert!(matches!(events.as_slice(), [SocketEvent::Connected]));
    (client, server)
}

fn data_events(events: Vec<SocketEvent>) -> Vec<Vec<u8>> {
    events
        .into_iter()
        .filter_map(|e| match e {
            SocketEvent::Data(d) => Some(d),
            _ => None,
        })
        .collect()
}

#[test]
fn single_frag_round_trip() {
    let (mut client, mut server) = handshake(0);
    let seq_id = client.send_data(vec![0xAA], MessageType::KeyMessage, MessagePriority::Normal)
        .unwrap();
    deliver_all(&mut client, &mut server);
    server.next_tick(10);
    let datas = data_events(server.drain_events());
    assert_eq!(datas, vec![vec![0xAAu8]]);

    // the server acks the single fragment with one byte, 0x01
    let ack_datagrams = server.drain_outgoing_datagrams();
    let mut saw_ack = false;
    for d in &ack_datagrams {
        if let Ok(Packet::Ack(sid, bitmap)) = UdpPacket::new(d.clone()).compute_packet() {
            assert_eq!(sid, seq_id);
            assert_eq!(bitmap, vec![0x01u8]);
            saw_ack = true;
        }
    }
    assert!(saw_ack);
    for d in ack_datagrams {
        client.add_received_packet(UdpPacket::new(d));
    }
    // once the ack is processed and the next resend attempt sees it,
    // the message is known received
    client.next_tick(200);
    assert_eq!(client.is_seq_id_received(seq_id), Ok(true));
    // and the tracked set is dropped about five seconds later
    client.next_tick(200 + 5200);
    assert_eq!(client.is_seq_id_received(seq_id), Err(()));
}

#[test]
fn handshake_through_server() {
    let mut client = RUdpSocket::new_client(0);
    let syn = client.drain_outgoing_datagrams().into_iter().next().unwrap();

    let mut server = RUdpServer::new();
    server.handle_incoming(42, UdpPacket::new(syn), 0);
    assert_eq!(server.remotes_len(), 1);
    assert_eq!(server.get(42).unwrap().status(), SocketStatus::Connected);

    let events = server.drain_events();
    assert!(matches!(events.as_slice(), [(42, SocketEvent::Connected)]));

    // the SynAck goes back to the client, completing its side
    let outgoing = server.drain_outgoing_datagrams();
    assert_eq!(outgoing.len(), 1);
    let (remote_id, synack_bytes) = outgoing.into_iter().next().unwrap();
    assert_eq!(remote_id, 42);
    assert!(matches!(
        UdpPacket::new(synack_bytes.clone()).compute_packet(),
        Ok(Packet::SynAck)
    ));
    client.add_received_packet(UdpPacket::new(synack_bytes));
    client.next_tick(1);
    assert_eq!(client.status(), SocketStatus::Connected);
    assert!(matches!(client.drain_events().as_slice(), [SocketEvent::Connected]));
}

#[test]
fn server_drops_non_syn_from_unknown_remote() {
    let mut server = RUdpServer::new();
    let heartbeat = UdpPacket::from_packet(&Packet::Heartbeat);
    server.handle_incoming(7, heartbeat, 0);
    assert_eq!(server.remotes_len(), 0);
}

#[test]
fn lossy_reassembly_resends_only_missing() {
    let (mut client, mut server) = handshake(0);
    let payload: Vec<u8> = (0..5000u32).map(|i| (i % 251) as u8).collect();
    let seq_id = client
        .send_data(payload.clone(), MessageType::KeyMessage, MessagePriority::Normal)
        .unwrap();

    // five fragments leave; fragments 1 and 3 are lost
    let datagrams = client.drain_outgoing_datagrams();
    assert_eq!(datagrams.len(), 5);
    for (i, d) in datagrams.into_iter().enumerate() {
        if i != 1 && i != 3 {
            server.add_received_packet(UdpPacket::new(d));
        }
    }
    server.next_tick(60);
    assert!(data_events(server.drain_events()).is_empty());

    // the server acks what it holds: bits 0, 2 and 4
    let mut partial_ack = None;
    for d in server.drain_outgoing_datagrams() {
        if let Ok(Packet::Ack(sid, bitmap)) = UdpPacket::new(d.clone()).compute_packet() {
            assert_eq!(sid, seq_id);
            partial_ack = Some(bitmap);
        }
        client.add_received_packet(UdpPacket::new(d));
    }
    assert_eq!(partial_ack.unwrap(), vec![0b00010101u8]);

    // within the Normal resend delay the client retransmits exactly the
    // two missing fragments
    client.next_tick(170);
    let resent = client.drain_outgoing_datagrams();
    let mut resent_ids = Vec::new();
    for d in resent {
        if let Ok(Packet::Fragment(f)) = UdpPacket::new(d.clone()).compute_packet() {
            resent_ids.push(f.frag_id);
            server.add_received_packet(UdpPacket::new(d));
        }
    }
    assert_eq!(resent_ids, vec![1u8, 3u8]);

    // the payload arrives exactly once
    server.next_tick(180);
    let datas = data_events(server.drain_events());
    assert_eq!(datas.len(), 1);
    assert_eq!(datas[0], payload);
    server.next_tick(240);
    assert!(data_events(server.drain_events()).is_empty());
}

#[test]
fn forgettable_fragment_loss_is_silent() {
    let (mut client, mut server) = handshake(0);
    let payload: Vec<u8> = vec![5u8; 3000];
    let seq_id = client
        .send_data(payload, MessageType::Forgettable, MessagePriority::Normal)
        .unwrap();
    // the sender retains nothing for a Forgettable message
    assert_eq!(client.is_seq_id_received(seq_id), Err(()));

    // fragment 2 of 3 never arrives
    let datagrams = client.drain_outgoing_datagrams();
    assert_eq!(datagrams.len(), 3);
    for (i, d) in datagrams.into_iter().enumerate() {
        if i != 2 {
            server.add_received_packet(UdpPacket::new(d));
        }
    }
    // both sides keep ticking (heartbeats keep the connection alive):
    // the sender never retransmits, the receiver never acks and never
    // emits an event for the lost message
    for now in [50u64, 200, 1_000, 9_000, 11_000, 20_000] {
        client.next_tick(now);
        for d in client.drain_outgoing_datagrams() {
            let p = UdpPacket::new(d.clone()).compute_packet().unwrap();
            assert!(!matches!(p, Packet::Fragment(..)));
            server.add_received_packet(UdpPacket::new(d));
        }
        server.next_tick(now);
        assert!(server.drain_events().is_empty());
        for d in server.drain_outgoing_datagrams() {
            let p = UdpPacket::new(d.clone()).compute_packet().unwrap();
            assert!(!matches!(p, Packet::Ack(..)));
            client.add_received_packet(UdpPacket::new(d));
        }
    }
}

#[test]
fn timeout_after_ten_seconds_of_silence() {
    let (mut client, _server) = handshake(0);
    client.next_tick(9_999);
    assert!(client.drain_events().is_empty());
    client.next_tick(10_000);
    assert_eq!(client.status(), SocketStatus::TimeoutError(10_000));
    let events = client.drain_events();
    assert!(matches!(events.as_slice(), [SocketEvent::Timeout]));
    // a timed-out socket sends nothing any more
    client.drain_outgoing_datagrams();
    client.next_tick(11_000);
    client.next_tick(15_000);
    assert!(client.drain_outgoing_datagrams().is_empty());
}

#[test]
fn graceful_end_reaches_the_server() {
    let mut client = RUdpSocket::new_client(0);
    let syn = client.drain_outgoing_datagrams().remove(0);
    let mut server = RUdpServer::new();
    server.handle_incoming(3, UdpPacket::new(syn), 0);
    server.drain_events();

    client.terminate(100);
    assert_eq!(client.status(), SocketStatus::TerminateSent(100));
    assert!(matches!(client.drain_events().as_slice(), [SocketEvent::Ended]));
    let mut end_bytes = None;
    for d in client.drain_outgoing_datagrams() {
        if let Ok(Packet::End(_)) = UdpPacket::new(d.clone()).compute_packet() {
            end_bytes = Some(d);
        }
    }
    server.handle_incoming(3, UdpPacket::new(end_bytes.unwrap()), 100);
    server.next_tick(101);
    let events = server.drain_events();
    assert!(matches!(events.as_slice(), [(3, SocketEvent::Ended)]));

    // the finished child is reaped ten seconds later
    assert_eq!(server.remotes_len(), 1);
    server.next_tick(10_200);
    server.next_tick(10_300);
    assert_eq!(server.remotes_len(), 0);
}

#[test]
fn oversize_send_fails_at_enqueue() {
    let (mut client, _server) = handshake(0);
    let too_big = vec![0u8; 256 * 1152 + 1];
    assert!(client.send_data(too_big, MessageType::KeyMessage, MessagePriority::Normal).is_err());
    // nothing left the socket for it
    assert!(client.drain_outgoing_datagrams().is_empty());
}

#[test]
fn heartbeat_keeps_the_connection_warm() {
    let (mut client, _server) = handshake(0);
    client.drain_outgoing_datagrams();
    client.next_tick(1_500);
    let mut saw_heartbeat = false;
    for d in client.drain_outgoing_datagrams() {
        if let Ok(Packet::Heartbeat) = UdpPacket::new(d).compute_packet() {
            saw_heartbeat = true;
        }
    }
    assert!(saw_heartbeat);
}

#[test]
fn syn_is_retried_every_three_seconds() {
    let mut client = RUdpSocket::new_client(0);
    client.drain_outgoing_datagrams();
    client.next_tick(2_000);
    assert!(client.drain_outgoing_datagrams().is_empty());
    client.next_tick(3_001);
    let resent = client.drain_outgoing_datagrams();
    assert_eq!(resent.len(), 1);
    assert!(matches!(
        UdpPacket::new(resent.into_iter().next().unwrap()).compute_packet(),
        Ok(Packet::Syn)
    ));
    assert_eq!(client.status(), SocketStatus::SynSent(3_001));
}

#[test]
fn all_due_acks_leave_in_one_tick() {
    // two messages complete in the same tick: both acks go out together
    let (mut client, mut server) = handshake(0);
    client.send_data(vec![0x01], MessageType::KeyMessage, MessagePriority::Normal).unwrap();
    client.send_data(vec![0x02], MessageType::KeyMessage, MessagePriority::Normal).unwrap();
    deliver_all(&mut client, &mut server);
    server.next_tick(10);
    let mut acked_ids: Vec<u32> = Vec::new();
    for d in server.drain_outgoing_datagrams() {
        if let Ok(Packet::Ack(sid, _)) = UdpPacket::new(d).compute_packet() {
            acked_ids.push(sid);
        }
    }
    acked_ids.sort();
    assert_eq!(acked_ids, vec![0u32, 1u32]);
}

#[test]
fn per_remote_send_through_get_mut() {
    let mut client = RUdpSocket::new_client(0);
    let syn = client.drain_outgoing_datagrams().remove(0);
    let mut server = RUdpServer::new();
    server.handle_incoming(11, UdpPacket::new(syn), 0);

    let child = server.get_mut(11).unwrap();
    let seq_id = child.send_data(vec![1, 2, 3], MessageType::KeyMessage, MessagePriority::Normal)
        .unwrap();
    assert_eq!(seq_id, 0);
    assert!(server.get_mut(99).is_none());

    let mut fragment_count = 0;
    for (id, d) in server.drain_outgoing_datagrams() {
        assert_eq!(id, 11);
        if let Ok(Packet::Fragment(f)) = UdpPacket::new(d).compute_packet() {
            assert_eq!(f.seq_id, 0);
            assert_eq!(f.data, vec![1, 2, 3]);
            fragment_count += 1;
        }
    }
    assert_eq!(fragment_count, 1);
}
