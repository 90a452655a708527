use ucp::packet::{UcpPacket, CMD_DATA, CMD_HEARTBEAT, CMD_SYN, CMD_SYN_ACK};
use ucp::stream::{UcpStream, UcpState};

fn deliver(from: &mut UcpStream, to: &mut UcpStream, now: u64) -> Vec<u8> {
    let dgrams = from.take_outgoing();
    let mut cmds = Vec::new();
    for d in dgrams {
        let p = UcpPacket::from_datagram(&d).expect("emitted datagram must parse");
        cmds.push(p.cmd);
        to.process_packet(p, now);
    }
    cmds
}

fn handshake() -> (UcpStream, UcpStream) {
    let mut client = UcpStream::new();
    let mut server = UcpStream::new();

    client.connecting(0);
    assert!(matches!(client.state, UcpState::Connecting));
    assert!(client.update(10));
    let cmds = deliver(&mut client, &mut server, 10);
    assert_eq!(cmds, vec![CMD_SYN]);
    assert!(matches!(server.state, UcpState::Accepting));
    assert_eq!(server.session_id, client.session_id);
    assert_eq!(server.una, 2);

    assert!(server.update(20));
    let cmds = deliver(&mut server, &mut client, 20);
    assert_eq!(cmds, vec![CMD_SYN_ACK]);
    assert!(matches!(client.state, UcpState::Established));
    assert_eq!(client.una, 2);

    let _ = deliver(&mut client, &mut server, 30);
    assert!(matches!(server.state, UcpState::Established));
    assert_eq!(server.send_queue.len(), 0);
    assert_eq!(client.send_queue.len(), 0);
    (client, server)
}

#[test]
fn clean_handshake_and_one_kib_transfer() {
    let (mut client, mut server) = handshake();

    let message = vec![42u8; 1024];
    client.send(&message, 100);
    assert_eq!(client.send_buffer.len(), 1);
    assert!(client.update(100));
    let _ = deliver(&mut client, &mut server, 110);

    let received = server.recv(4096);
    assert_eq!(received, message);
}

#[test]
fn lost_middle_data_triggers_fast_retransmit() {
    let (mut client, mut server) = handshake();

    client.send(&[1u8; 1371], 100);
    client.send(&[2u8; 1371], 100);
    client.send(&[3u8; 1371], 100);
    assert!(client.update(100));
    let dgrams = client.take_outgoing();
    assert_eq!(dgrams.len(), 3);

    let first = UcpPacket::from_datagram(&dgrams[0]).unwrap();
    let third = UcpPacket::from_datagram(&dgrams[2]).unwrap();
    let lost_seq = UcpPacket::from_datagram(&dgrams[1]).unwrap().seq;
    server.process_packet(first, 110);
    server.process_packet(third, 110);
    assert_eq!(server.una, 3);
    assert_eq!(server.recv_queue.len(), 2);
    assert_eq!(server.recv_queue[1].seq, 4);

    assert!(server.update(120));
    let _ = deliver(&mut server, &mut client, 130);

    assert_eq!(client.send_queue.len(), 1);
    assert_eq!(client.send_queue[0].seq, lost_seq);
    assert!(client.send_queue[0].skip_times >= 2);

    assert!(client.update(140));
    let cmds = deliver(&mut client, &mut server, 150);
    assert_eq!(cmds, vec![CMD_DATA]);
    assert_eq!(server.una, 5);

    let mut received = server.recv(8192);
    assert_eq!(received.len(), 3 * 1371);
    let tail = received.split_off(2 * 1371);
    let mid = received.split_off(1371);
    assert!(received.iter().all(|b| *b == 1));
    assert!(mid.iter().all(|b| *b == 2));
    assert!(tail.iter().all(|b| *b == 3));
}

#[test]
fn heartbeats_keep_an_idle_stream_alive() {
    let (mut client, mut server) = handshake();

    let mut heartbeats = 0;
    for t in [2500u64, 5000, 7500, 10000] {
        assert!(client.update(t));
        let cmds = deliver(&mut client, &mut server, t);
        heartbeats += cmds.iter().filter(|c| **c == CMD_HEARTBEAT).count();
        let _ = deliver(&mut server, &mut client, t);
        assert_eq!(client.alive_time, t);
    }
    assert_eq!(heartbeats, 4);
    assert!(client.update(10001));
}

#[test]
fn silence_breaks_the_stream_after_twenty_seconds() {
    let (mut client, _server) = handshake();

    let last_inbound = client.alive_time;
    assert!(client.update(last_inbound + 19999));
    assert!(!client.update(last_inbound + 20000));
}

#[test]
fn window_saturation_gates_emission() {
    let mut s = UcpStream::new();
    s.remote_window = 4;
    for _ in 0..10 {
        s.send(&[9u8; 1371], 0);
    }
    assert_eq!(s.send_buffer.len(), 10);

    assert!(s.update(0));
    assert_eq!(s.send_queue.len(), 4);
    assert_eq!(s.send_buffer.len(), 6);
    assert!(s.is_send_buffer_overflow());
    assert_eq!(s.take_outgoing().len(), 4);

    let ts = s.send_queue[0].timestamp;
    assert!(s.process_an_ack(1, ts, 1));
    assert!(s.process_an_ack(2, ts, 1));
    assert_eq!(s.send_queue.len(), 2);

    assert!(s.update(1));
    assert_eq!(s.send_queue.len(), 4);
    assert_eq!(s.send_buffer.len(), 4);
    assert_eq!(s.take_outgoing().len(), 2);
}
