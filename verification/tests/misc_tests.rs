use reliudp::misc::OwnedSlice;
use reliudp::ping_handler::PingHandler;
use reliudp::rudp::{MessagePriority, MessageType, SocketStatus};

#[test]
fn owned_slice_strips_from_the_front() {
    let s = OwnedSlice::new(vec![1u8, 2, 3, 4, 5], 2);
    assert_eq!(s.as_slice(), &[3, 4, 5]);
    let s = s.with_added_strip(1);
    assert_eq!(s.as_slice(), &[4, 5]);
    assert_eq!(s.into_vec(), vec![4, 5]);
}

#[test]
fn resend_delays_follow_the_priority() {
    assert_eq!(MessagePriority::Highest.resend_delay(), 20);
    assert_eq!(MessagePriority::VeryHigh.resend_delay(), 40);
    assert_eq!(MessagePriority::High.resend_delay(), 80);
    assert_eq!(MessagePriority::Normal.resend_delay(), 160);
    assert_eq!(MessagePriority::Low.resend_delay(), 320);
    assert_eq!(MessagePriority::VeryLow.resend_delay(), 640);
    assert_eq!(MessagePriority::Lowest.resend_delay(), 1500);
    assert_eq!(MessagePriority::Custom { resend_delay_ms: 77 }.resend_delay(), 77);
    assert!(matches!(MessagePriority::default(), MessagePriority::Normal));
}

#[test]
fn only_reliable_messages_are_acked() {
    assert!(!MessageType::Forgettable.has_ack());
    assert!(MessageType::KeyExpirableMessage(100).has_ack());
    assert!(MessageType::KeyMessage.has_ack());
}

#[test]
fn socket_status_classification() {
    assert!(SocketStatus::Connected.is_connected());
    assert!(!SocketStatus::SynReceived.is_connected());
    assert!(!SocketStatus::Connected.is_finished());
    assert!(!SocketStatus::SynSent(5).is_finished());
    assert!(SocketStatus::TimeoutError(5).is_finished());
    assert!(SocketStatus::TerminateSent(5).is_finished());
    assert!(SocketStatus::TerminateReceived(5).is_finished());
    assert!(!SocketStatus::TimeoutError(5).is_finished_and_old(5_000));
    assert!(SocketStatus::TimeoutError(5).is_finished_and_old(10_005));
    assert!(!SocketStatus::Connected.is_finished_and_old(1_000_000));
}

#[test]
fn ping_measures_the_ack_round_trip() {
    let mut ping = PingHandler::new();
    assert_eq!(ping.current_ping_ms(), None);
    ping.ping(4, 1_000);
    // an unrelated pong changes nothing
    ping.pong(9, 1_080);
    assert_eq!(ping.current_ping_ms(), None);
    ping.pong(4, 1_080);
    assert_eq!(ping.current_ping_ms(), Some(80));
    // while a ping is outstanding and fresh, a new one is not recorded
    ping.ping(5, 2_000);
    ping.ping(6, 2_001);
    ping.pong(6, 2_500);
    assert_eq!(ping.current_ping_ms(), Some(80));
    ping.pong(5, 2_500);
    assert_eq!(ping.current_ping_ms(), Some(500));
    // a pong that arrives after five seconds is clamped below 5 s
    ping.ping(7, 10_000);
    ping.pong(7, 16_000);
    assert_eq!(ping.current_ping_ms(), Some(4999));
}
