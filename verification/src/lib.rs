//! A reliable-message protocol layered on top of unreliable datagrams.
//!
//! The crate frames messages into CRC-checked datagrams, slices large
//! payloads into numbered fragments, reassembles them on the receiving side
//! with bitmap acknowledgements, retransmits unacknowledged fragments, and
//! drives a per-remote connection state machine (handshake, heartbeats,
//! timeouts, teardown) plus a server that demultiplexes many remotes.
//!
//! The library itself never touches a socket or a clock: callers feed in
//! received datagrams and the current time in milliseconds, and drain the
//! datagrams to transmit.

pub mod ack;
pub mod checksum;
pub mod consts;
pub mod fragment;
pub mod fragment_combiner;
pub mod fragment_generator;
pub mod misc;
pub mod ping_handler;
pub mod rudp;
pub mod rudp_server;
pub mod sent_data_tracker;
pub mod udp_packet;
pub mod udp_packet_handler;
pub mod vecmap;
