use ucp::packet::{UcpPacket, CMD_DATA, CMD_SYN, PACKET_META_SIZE, MAX_PAYLOAD};

#[test]
fn pack_parse_round_trip_recovers_fields() {
    let mut p = UcpPacket::new();
    p.session_id = 0xDEAD_BEEF;
    p.timestamp = 12345;
    p.window = 512;
    p.xmit = 3;
    p.una = 77;
    p.seq = 78;
    p.cmd = CMD_DATA;
    assert!(p.payload_write_u32(0x0102_0304));
    assert!(p.payload_write_slice(&[9, 8, 7]));
    p.pack();

    let wire = p.packed_buffer().to_vec();
    assert_eq!(wire.len(), PACKET_META_SIZE + 7);
    let mut q = UcpPacket::from_datagram(&wire).expect("packed datagram must parse");
    assert_eq!(q.session_id, 0xDEAD_BEEF);
    assert_eq!(q.timestamp, 12345);
    assert_eq!(q.window, 512);
    assert_eq!(q.xmit, 3);
    assert_eq!(q.una, 77);
    assert_eq!(q.seq, 78);
    assert_eq!(q.cmd, CMD_DATA);
    assert_eq!(q.payload, 7);
    assert_eq!(q.payload_read_u32(), 0x0102_0304);
    assert_eq!(q.payload_read_slice(10), vec![9, 8, 7]);
}

#[test]
fn max_payload_packet_is_legal() {
    let mut p = UcpPacket::new();
    p.cmd = CMD_DATA;
    p.seq = 1;
    let data = vec![0xABu8; MAX_PAYLOAD];
    assert!(p.payload_write_slice(&data));
    assert!(!p.payload_write_u32(1));
    assert!(!p.payload_write_slice(&[0]));
    p.pack();
    assert!(p.is_legal());
    assert!(p.is_crc32_correct());

    let wire = p.packed_buffer().to_vec();
    assert_eq!(wire.len(), 1400);
    let mut q = UcpPacket::from_datagram(&wire).expect("full-size datagram must parse");
    assert_eq!(q.payload as usize, MAX_PAYLOAD);
    assert_eq!(q.payload_read_slice(MAX_PAYLOAD), data);
}

#[test]
fn short_datagram_is_rejected() {
    let wire = vec![0u8; 10];
    assert!(UcpPacket::from_datagram(&wire).is_none());
}

#[test]
fn corrupted_datagram_is_rejected() {
    let mut p = UcpPacket::new();
    p.cmd = CMD_DATA;
    assert!(p.payload_write_u32(42));
    p.pack();
    let mut wire = p.packed_buffer().to_vec();
    wire[30] ^= 0xFF;
    assert!(UcpPacket::from_datagram(&wire).is_none());
}

#[test]
fn unknown_command_is_rejected() {
    let mut p = UcpPacket::new();
    p.cmd = 42;
    p.pack();
    assert!(p.is_legal());
    let wire = p.packed_buffer().to_vec();
    assert!(UcpPacket::from_datagram(&wire).is_none());
}

#[test]
fn stored_digest_is_the_ieee_crc_of_the_body() {
    let mut p = UcpPacket::new();
    p.session_id = 7;
    p.timestamp = 8;
    p.window = 9;
    p.una = 10;
    p.seq = 11;
    p.cmd = CMD_DATA;
    assert!(p.payload_write_slice(b"123456789"));
    p.pack();
    let wire = p.packed_buffer().to_vec();
    let expected = crc::crc32::checksum_ieee(&wire[4..]);
    let stored = u32::from_be_bytes([wire[0], wire[1], wire[2], wire[3]]);
    assert_eq!(stored, expected);
}

#[test]
fn is_syn_checks_command() {
    let mut p = UcpPacket::new();
    p.cmd = CMD_SYN;
    assert!(p.is_syn());
    p.cmd = CMD_DATA;
    assert!(!p.is_syn());
}

#[test]
fn payload_capacity_accounting() {
    let mut p = UcpPacket::new();
    assert_eq!(p.remaining_load(), MAX_PAYLOAD);
    assert_eq!(p.payload_offset(), PACKET_META_SIZE);
    assert!(p.payload_write_slice(&[1, 2, 3, 4, 5]));
    assert_eq!(p.remaining_load(), MAX_PAYLOAD - 5);
    assert_eq!(p.payload_offset(), PACKET_META_SIZE + 5);
}

#[test]
fn partial_payload_reads() {
    let mut p = UcpPacket::new();
    p.cmd = CMD_DATA;
    assert!(p.payload_write_slice(&[10, 20, 30, 40, 50]));
    p.pack();
    let wire = p.packed_buffer().to_vec();
    let mut q = UcpPacket::from_datagram(&wire).unwrap();
    assert_eq!(q.payload_remaining(), 5);
    assert_eq!(q.payload_read_slice(2), vec![10, 20]);
    assert_eq!(q.payload_remaining(), 3);
    assert_eq!(q.payload_read_slice(99), vec![30, 40, 50]);
    assert_eq!(q.payload_remaining(), 0);
    assert_eq!(q.payload_read_slice(1), Vec::<u8>::new());
}
