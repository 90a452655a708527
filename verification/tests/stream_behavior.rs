use ucp::packet::{UcpPacket, CMD_ACK, CMD_DATA, CMD_HEARTBEAT};
use ucp::stream::{UcpStream, UcpState, DEFAULT_RTO, DEFAULT_WINDOW};

fn data_packet(session_id: u32, seq: u32, una: u32, now: u64, payload: &[u8]) -> UcpPacket {
    let mut p = UcpPacket::new();
    p.session_id = session_id;
    p.timestamp = (now % 0x1_0000_0000) as u32;
    p.window = DEFAULT_WINDOW;
    p.una = una;
    p.seq = seq;
    p.cmd = CMD_DATA;
    assert!(p.payload_write_slice(payload));
    p.pack();
    let wire = p.packed_buffer().to_vec();
    UcpPacket::from_datagram(&wire).expect("crafted datagram must parse")
}

#[test]
fn new_stream_defaults() {
    let s = UcpStream::new();
    assert!(matches!(s.state, UcpState::Idle));
    assert_eq!(s.seq, 0);
    assert_eq!(s.una, 0);
    assert_eq!(s.rto, DEFAULT_RTO);
    assert_eq!(s.local_window, DEFAULT_WINDOW);
    assert_eq!(s.remote_window, DEFAULT_WINDOW);
    assert!(!s.is_send_buffer_overflow());
}

#[test]
fn send_chunks_into_packets() {
    let mut s = UcpStream::new();
    s.send(&[7u8; 1024], 0);
    assert_eq!(s.send_buffer.len(), 1);
    assert_eq!(s.send_buffer[0].payload, 1024);
    assert_eq!(s.send_buffer[0].seq, 1);

    let mut t = UcpStream::new();
    t.send(&[7u8; 3000], 0);
    assert_eq!(t.send_buffer.len(), 3);
    assert_eq!(t.send_buffer[0].payload, 1371);
    assert_eq!(t.send_buffer[1].payload, 1371);
    assert_eq!(t.send_buffer[2].payload as usize, 3000 - 2 * 1371);
    assert_eq!(t.send_buffer[0].seq, 1);
    assert_eq!(t.send_buffer[1].seq, 2);
    assert_eq!(t.send_buffer[2].seq, 3);
}

#[test]
fn send_fills_tail_packet_first() {
    let mut s = UcpStream::new();
    s.send(&[1u8; 100], 0);
    s.send(&[2u8; 50], 0);
    assert_eq!(s.send_buffer.len(), 1);
    assert_eq!(s.send_buffer[0].payload, 150);
    assert_eq!(s.seq, 1);
}

#[test]
fn overflow_predicate_tracks_remote_window() {
    let mut s = UcpStream::new();
    s.remote_window = 2;
    s.send(&[0u8; 1371], 0);
    assert!(!s.is_send_buffer_overflow());
    s.send(&[0u8; 1371], 0);
    assert!(s.is_send_buffer_overflow());
}

#[test]
fn duplicate_data_is_inserted_once() {
    let mut s = UcpStream::new();
    s.state = UcpState::Established;
    s.una = 5;
    let p1 = data_packet(0, 6, 0, 10, b"abc");
    let p2 = data_packet(0, 6, 0, 11, b"abc");
    s.process_packet(p1, 10);
    assert_eq!(s.recv_queue.len(), 1);
    assert_eq!(s.una, 5);
    assert_eq!(s.ack_list.len(), 1);
    s.process_packet(p2, 11);
    assert_eq!(s.recv_queue.len(), 1);
    assert_eq!(s.una, 5);
    assert_eq!(s.ack_list.len(), 2);

    let p3 = data_packet(0, 5, 0, 12, b"xyz");
    s.process_packet(p3, 12);
    assert_eq!(s.recv_queue.len(), 2);
    assert_eq!(s.una, 7);
}

#[test]
fn already_delivered_data_is_dropped() {
    let mut s = UcpStream::new();
    s.state = UcpState::Established;
    s.una = 5;
    let p = data_packet(0, 4, 0, 10, b"old");
    s.process_packet(p, 10);
    assert_eq!(s.recv_queue.len(), 0);
    assert_eq!(s.una, 5);
    assert_eq!(s.ack_list.len(), 1);
}

#[test]
fn data_one_below_boundary_mod_wrap_is_dropped() {
    let mut s = UcpStream::new();
    s.state = UcpState::Established;
    s.una = 0;
    let p = data_packet(0, u32::MAX, 0, 10, b"wrapped");
    s.process_packet(p, 10);
    assert_eq!(s.recv_queue.len(), 0);
    assert_eq!(s.una, 0);
}

#[test]
fn ack_removes_a_sequence_at_most_once() {
    let mut s = UcpStream::new();
    s.send(&[1u8; 1371], 0);
    s.send(&[2u8; 1371], 0);
    s.send_pending_packets(0);
    assert_eq!(s.send_queue.len(), 2);
    let ts = s.send_queue[1].timestamp;

    assert!(s.process_an_ack(2, ts, 5));
    assert_eq!(s.send_queue.len(), 1);
    assert_eq!(s.send_queue[0].seq, 1);
    assert_eq!(s.send_queue[0].skip_times, 1);

    assert!(!s.process_an_ack(2, ts, 6));
    assert_eq!(s.send_queue.len(), 1);
    assert_eq!(s.send_queue[0].skip_times, 2);
}

#[test]
fn cumulative_ack_drops_prefix() {
    let mut s = UcpStream::new();
    s.send(&[0u8; 1371 * 3], 0);
    s.send_pending_packets(0);
    assert_eq!(s.send_queue.len(), 3);
    s.process_una(3);
    assert_eq!(s.send_queue.len(), 1);
    assert_eq!(s.send_queue[0].seq, 3);
    s.process_una(3);
    assert_eq!(s.send_queue.len(), 1);
}

#[test]
fn retransmit_exactly_at_rto() {
    let mut s = UcpStream::new();
    s.send(&[3u8; 10], 1000);
    s.send_pending_packets(1000);
    let _ = s.take_outgoing();
    assert_eq!(s.send_queue[0].xmit, 0);

    s.timeout_resend(1000 + DEFAULT_RTO as u64 - 1);
    assert!(s.take_outgoing().is_empty());
    assert_eq!(s.send_queue[0].xmit, 0);

    s.timeout_resend(1000 + DEFAULT_RTO as u64);
    let out = s.take_outgoing();
    assert_eq!(out.len(), 1);
    assert_eq!(s.send_queue[0].xmit, 1);
    assert_eq!(s.send_queue[0].skip_times, 0);
    assert_eq!(s.send_queue[0].timestamp, 1000 + DEFAULT_RTO);
    let p = UcpPacket::from_datagram(&out[0]).unwrap();
    assert_eq!(p.xmit, 1);
    assert_eq!(p.cmd, CMD_DATA);
}

#[test]
fn liveness_boundary_is_exact() {
    let mut s = UcpStream::new();
    s.alive_time = 1000;
    assert!(s.check_if_alive(1000 + 19999));
    assert!(!s.check_if_alive(1000 + 20000));
    assert!(s.update(1000 + 19999));
    assert!(!s.update(1000 + 20000));
}

#[test]
fn heartbeat_boundary_is_exact() {
    let mut s = UcpStream::new();
    s.heartbeat = 0;
    assert!(s.update(2499));
    assert!(s.take_outgoing().is_empty());
    assert!(s.update(2500));
    let out = s.take_outgoing();
    assert_eq!(out.len(), 1);
    let p = UcpPacket::from_datagram(&out[0]).unwrap();
    assert_eq!(p.cmd, CMD_HEARTBEAT);
    assert_eq!(p.seq, 0);
}

#[test]
fn ack_list_is_flushed_in_one_datagram() {
    let mut s = UcpStream::new();
    s.ack_list.push((7, 100));
    s.ack_list.push((9, 101));
    s.send_ack_list(200);
    assert_eq!(s.ack_list.len(), 0);
    let out = s.take_outgoing();
    assert_eq!(out.len(), 1);
    let mut p = UcpPacket::from_datagram(&out[0]).unwrap();
    assert_eq!(p.cmd, CMD_ACK);
    assert_eq!(p.seq, 0);
    assert_eq!(p.payload, 16);
    assert_eq!(p.payload_read_u32(), 7);
    assert_eq!(p.payload_read_u32(), 100);
    assert_eq!(p.payload_read_u32(), 9);
    assert_eq!(p.payload_read_u32(), 101);
}

#[test]
fn large_ack_list_splits_datagrams() {
    let mut s = UcpStream::new();
    let mut i: u32 = 0;
    while i < 200 {
        s.ack_list.push((i, i + 1000));
        i += 1;
    }
    s.send_ack_list(50);
    let out = s.take_outgoing();
    assert_eq!(out.len(), 2);
    let a = UcpPacket::from_datagram(&out[0]).unwrap();
    let b = UcpPacket::from_datagram(&out[1]).unwrap();
    assert_eq!(a.payload, 171 * 8);
    assert_eq!(b.payload, (200 - 171) * 8);
}

#[test]
fn recv_drains_in_order_and_discards_spent_packets() {
    let mut s = UcpStream::new();
    s.state = UcpState::Established;
    s.una = 1;
    s.process_packet(data_packet(0, 1, 0, 0, b"hello "), 0);
    s.process_packet(data_packet(0, 2, 0, 0, b"world"), 0);
    assert_eq!(s.una, 3);
    let part = s.recv(4);
    assert_eq!(part, b"hell".to_vec());
    let rest = s.recv(100);
    assert_eq!(rest, b"o world".to_vec());
    assert_eq!(s.recv_queue.len(), 0);
    assert_eq!(s.recv(16), Vec::<u8>::new());
}
