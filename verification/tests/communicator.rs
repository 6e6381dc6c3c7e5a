use mini_udp::communicator::{FixedResend, InnerUdpCommunicator, ResendAction, ResendContext};
use mini_udp::context::{MessageSource, MightHaveWork};
use mini_udp::frame::{read_frame, write_frame};
use mini_udp::packet::{Packet, PacketAck, PacketData, MAX_PACKET_DATA_LEN};
use mini_udp::{ByteRepr, Error};

const VERSION: u32 = 2;

fn pair() -> (InnerUdpCommunicator<u16, u16>, InnerUdpCommunicator<u16, u16>) {
    (InnerUdpCommunicator::new(VERSION, 0), InnerUdpCommunicator::new(VERSION, 0))
}

/// Hand every frame of `frames` to `to`.
fn deliver(frames: &[Vec<u8>], to: &mut InnerUdpCommunicator<u16, u16>, now: u64) {
    for f in frames {
        assert_eq!(to.read_packet(f, now), Some(Ok(())));
    }
}

fn ack_for(sequence_id: u16) -> PacketAck {
    PacketAck {
        sequence_id,
        reliable_newest_received: u16::MAX,
        reliable_ack_bits: 0,
        ordered_newest_received: u16::MAX,
        ordered_ack_bits: 0,
    }
}

#[test]
fn unreliable_message_roundtrip() {
    let (mut a, mut b) = pair();
    a.write(1394);
    let frames = a.prepare_send(10);
    assert_eq!(frames.len(), 1);
    deliver(&frames, &mut b, 11);
    assert_eq!(b.read(), Some(1394));
    assert_eq!(b.read(), None);
    assert_eq!(b.last_seen, 11);
}

/// `None` and `Some(w)` are laid out as a two-variant message `Hello` / `Wave(u16)` is.
#[test]
fn mod_packet_roundtrip() {
    let mut com1: InnerUdpCommunicator<Option<u16>, Option<u16>> = InnerUdpCommunicator::new(0, 0);
    let mut com2: InnerUdpCommunicator<Option<u16>, Option<u16>> = InnerUdpCommunicator::new(0, 0);
    let m1 = None;
    let m2 = Some(1394);
    com2.write(m1);
    com2.write(m2);
    let frames = com2.prepare_send(0);
    for f in &frames {
        assert_eq!(com1.read_packet(f, 0), Some(Ok(())));
    }
    assert_eq!(com1.read(), Some(m1));
    assert_eq!(com1.read(), Some(m2));
    assert_eq!(com1.read(), None);
}

#[test]
fn reliable_message_is_resent_until_acknowledged() {
    let (mut a, mut b) = pair();
    a.write_reliable(7);
    assert!(a.has_work());
    let frames = a.prepare_send(0);
    assert_eq!(frames.len(), 1);
    // Not due yet: nothing is sent again.
    assert!(a.prepare_send(50).is_empty());
    // Due again after more than the interval.
    let again = a.prepare_send(101);
    assert_eq!(again.len(), 1);
    deliver(&frames, &mut b, 102);
    assert_eq!(b.read(), Some(7));
    // The second copy is a duplicate: it is not handed out again.
    deliver(&again, &mut b, 103);
    assert_eq!(b.read(), None);
    assert!(b.received_packet_duplicate);
    // The duplicate makes b send a heartbeat that acknowledges the packet.
    let hb = b.prepare_send(104);
    assert_eq!(hb.len(), 1);
    assert!(!b.received_packet_duplicate);
    deliver(&hb, &mut a, 105);
    assert!(!a.has_work());
    assert!(a.reliable_send_packets.is_empty());
}

#[test]
fn ordered_messages_wait_for_missing_packet() {
    let (mut a, mut b) = pair();
    a.write_ordered(1);
    let first = a.prepare_send(0);
    a.write_ordered(2);
    let second = a.prepare_send(0);
    a.write_ordered(3);
    let third = a.prepare_send(0);
    assert_eq!((first.len(), second.len(), third.len()), (1, 1, 1));
    deliver(&third, &mut b, 1);
    deliver(&second, &mut b, 1);
    assert_eq!(b.read_ordered(), None);
    deliver(&first, &mut b, 1);
    assert_eq!(b.read_ordered(), Some(1));
    assert_eq!(b.read_ordered(), Some(2));
    assert_eq!(b.read_ordered(), Some(3));
    assert_eq!(b.read_ordered(), None);
    assert_eq!(b.ordered_read_packet_head, 3);
}

#[test]
fn messages_are_packed_greedily() {
    let (mut a, mut b) = pair();
    // A string of 1020 bytes takes 1024 with its length; two of them need two packets.
    let mut big_a: InnerUdpCommunicator<String, String> = InnerUdpCommunicator::new(VERSION, 0);
    let mut big_b: InnerUdpCommunicator<String, String> = InnerUdpCommunicator::new(VERSION, 0);
    let s = "x".repeat(MAX_PACKET_DATA_LEN - 4);
    big_a.write(s.clone());
    big_a.write(s.clone());
    let frames = big_a.prepare_send(0);
    assert_eq!(frames.len(), 2);
    for f in &frames {
        assert_eq!(big_b.read_packet(f, 1), Some(Ok(())));
    }
    assert_eq!(big_b.read(), Some(s.clone()));
    assert_eq!(big_b.read(), Some(s));
    // Many small messages share one packet.
    for i in 0..100 {
        a.write(i);
    }
    let frames = a.prepare_send(0);
    assert_eq!(frames.len(), 1);
    deliver(&frames, &mut b, 1);
    for i in 0..100 {
        assert_eq!(b.read(), Some(i));
    }
}

#[test]
fn reliable_packets_stop_when_buffer_is_full() {
    // 40 packets' worth of messages: only 32 fit into the pending buffer.
    let mut big_a: InnerUdpCommunicator<String, String> = InnerUdpCommunicator::new(VERSION, 0);
    let msg = "y".repeat(MAX_PACKET_DATA_LEN - 4);
    for _ in 0..40 {
        big_a.write_reliable(msg.clone());
    }
    big_a.flush_messages();
    assert_eq!(big_a.reliable_send_packets.len(), 32);
    assert_eq!(big_a.reliable_send_queue.len(), 8);
    assert!(big_a.has_work());
}

#[test]
fn test_protocol_version_check() {
    let mut a: InnerUdpCommunicator<String, String> = InnerUdpCommunicator::new(1, 0);
    let mut b: InnerUdpCommunicator<String, String> = InnerUdpCommunicator::new(2, 0);
    a.write(String::from("Can you hear me?"));
    let frames = a.prepare_send(0);
    assert_eq!(b.read_packet(&frames[0], 0), Some(Err(Error::CrcFailed)));
    assert_eq!(b.read(), None);
}

#[test]
fn short_frame_is_refused() {
    let (_, mut b) = pair();
    assert_eq!(b.read_packet(&[1, 2, 3], 0), Some(Err(Error::PacketLengthLessThanCrcBytes)));
}

#[test]
fn too_old_packet_is_refused() {
    let (_, mut b) = pair();
    for seq in [0u16, 20, 40] {
        let p = Packet { ack: ack_for(seq), ty: PacketData::ReliableOrdered { messages: vec![seq] } };
        assert_eq!(b.receive_packet(p, 0), Some(Ok(())));
    }
    assert_eq!(b.read_ordered(), Some(0));
    assert_eq!(b.read_ordered(), None);
    let old = Packet { ack: ack_for(1), ty: PacketData::ReliableOrdered { messages: vec![2u16] } };
    assert_eq!(
        b.receive_packet(old, 0),
        Some(Err(Error::PacketTooOld { sequence_id: 1, newest_id: 40 }))
    );
    assert!(b.received_packet_duplicate);
}

#[test]
fn fragments_are_not_handled() {
    let (_, mut b) = pair();
    let p = Packet {
        ack: ack_for(0),
        ty: PacketData::<u16>::UnreliableFragment {
            chunk_id: 1,
            num_fragments: 2,
            fragment_id: 0,
            data: vec![0; MAX_PACKET_DATA_LEN],
        },
    };
    assert_eq!(b.receive_packet(p, 5), None);
    assert_eq!(b.last_seen, 0);
}

#[test]
fn heartbeat_carries_acknowledgements() {
    let (mut a, mut b) = pair();
    a.write_reliable(5);
    a.write_ordered(6);
    let frames = a.prepare_send(0);
    assert_eq!(frames.len(), 2);
    deliver(&frames, &mut b, 0);
    b.write_heartbeat();
    assert_eq!(b.unreliable_send_packet_id, 1);
    let hb = b.prepare_send(0);
    assert_eq!(hb.len(), 1);
    let packet = read_frame::<u16>(&hb[0], VERSION).unwrap().unwrap();
    assert_eq!(packet.ack.reliable_newest_received, 0);
    assert_eq!(packet.ack.reliable_ack_bits, 1);
    assert_eq!(packet.ack.ordered_newest_received, 0);
    assert_eq!(packet.ack.ordered_ack_bits, 1);
    assert!(matches!(packet.ty, PacketData::Heartbeat));
    deliver(&hb, &mut a, 1);
    assert!(!a.has_work());
}

#[test]
fn acknowledge_drops_named_packets() {
    let (mut a, _) = pair();
    for i in 0..3 {
        a.write_reliable(i);
        a.flush_messages();
    }
    assert_eq!(a.reliable_send_packets.len(), 3);
    let ack = PacketAck {
        sequence_id: 0,
        reliable_newest_received: 2,
        reliable_ack_bits: 0b101,
        ordered_newest_received: u16::MAX,
        ordered_ack_bits: 0,
    };
    a.acknowledge(&ack);
    assert!(a.reliable_send_packets.get(2).is_none());
    assert!(a.reliable_send_packets.get(1).is_some());
    assert!(a.reliable_send_packets.get(0).is_none());
}

#[test]
fn resend_strategy_drops_after_last_retry() {
    let mut cfg = FixedResend::new();
    assert_eq!((cfg.resend_interval_ms, cfg.max_retries), (100, 100));
    cfg.set_resend_interval(3);
    cfg.set_max_retries(1);
    let mut ctx = ResendContext { last_send_ms: None, times_sent: 0 };
    assert_eq!(cfg.resend(&mut ctx, 0), ResendAction::Resend);
    assert_eq!(cfg.resend(&mut ctx, 3), ResendAction::DoNotResend);
    assert_eq!(cfg.resend(&mut ctx, 4), ResendAction::ResendThenDrop);
    assert_eq!(ctx, ResendContext { last_send_ms: Some(4), times_sent: 2 });
}

#[test]
fn message_source_and_work() {
    let (mut a, mut b) = pair();
    assert!(!MightHaveWork::has_work(&a));
    a.write(3);
    assert!(MightHaveWork::has_work(&a));
    let frames = a.prepare_send(0);
    deliver(&frames, &mut b, 0);
    assert_eq!(MessageSource::next(&mut b), Some(3));
    assert_eq!(MessageSource::next(&mut b), None);
}

#[test]
fn frame_roundtrip_law() {
    let packet = Packet { ack: ack_for(9), ty: PacketData::Unreliable { messages: vec![1u16, 2, 3] } };
    let mut buf = vec![0u8; 64];
    let n = write_frame(&packet, VERSION, &mut buf).unwrap();
    assert_eq!(n, 4 + 14 + 1 + 4 + 6);
    let back = read_frame::<u16>(&buf[..n], VERSION).unwrap().unwrap();
    assert_eq!(back.ack, packet.ack);
    match back.ty {
        PacketData::Unreliable { messages } => assert_eq!(messages, vec![1, 2, 3]),
        _ => panic!("wrong packet type"),
    }
    // The CRC depends on the protocol version.
    assert!(matches!(read_frame::<u16>(&buf[..n], VERSION + 1), Some(Err(Error::CrcFailed))));
}

#[test]
fn crc_changes_with_bytes() {
    let packet = Packet::<u16>::heartbeat(ack_for(1));
    let mut buf = vec![0u8; 32];
    let n = write_frame(&packet, VERSION, &mut buf).unwrap();
    let mut corrupted = buf[..n].to_vec();
    corrupted[n - 1] ^= 1;
    assert!(matches!(read_frame::<u16>(&corrupted, VERSION), Some(Err(Error::CrcFailed))));
}

#[test]
fn heartbeat_sent_after_new_packets_when_idle() {
    let (mut a, mut b) = pair();
    a.write(3);
    let frames = a.prepare_send(0);
    deliver(&frames, &mut b, 1);
    assert!(b.received_since_send);
    assert!(!b.received_packet_duplicate);
    let hb = b.prepare_send(2);
    assert_eq!(hb.len(), 1);
    let packet = read_frame::<u16>(&hb[0], VERSION).unwrap().unwrap();
    assert!(matches!(packet.ty, PacketData::Heartbeat));
    assert!(!b.received_since_send);
    // Nothing new arrived: nothing is sent.
    assert!(b.prepare_send(3).is_empty());
    // A received heartbeat is a new packet too: it is answered with a heartbeat.
    deliver(&hb, &mut a, 4);
    assert!(a.received_since_send);
    let answer = a.prepare_send(5);
    assert_eq!(answer.len(), 1);
    let packet = read_frame::<u16>(&answer[0], VERSION).unwrap().unwrap();
    assert!(matches!(packet.ty, PacketData::Heartbeat));
    assert!(a.prepare_send(6).is_empty());
}

#[test]
fn no_heartbeat_when_something_else_is_sent() {
    let (mut a, mut b) = pair();
    a.write(1);
    let frames = a.prepare_send(0);
    deliver(&frames, &mut b, 0);
    // A queued message carries the acknowledgements instead.
    b.write(9);
    let out = b.prepare_send(1);
    assert_eq!(out.len(), 1);
    let packet = read_frame::<u16>(&out[0], VERSION).unwrap().unwrap();
    assert!(matches!(packet.ty, PacketData::Unreliable { .. }));
    // A reliable packet due for resending goes out instead of a heartbeat.
    let (mut c, mut d) = pair();
    d.write_reliable(4);
    let first = d.prepare_send(0);
    assert_eq!(first.len(), 1);
    c.write(2);
    let frames = c.prepare_send(0);
    deliver(&frames, &mut d, 0);
    let out = d.prepare_send(200);
    assert_eq!(out, first);
}

#[test]
fn test_unreliable_fragmenting() {
    let msg = (0..5000_usize).fold(String::new(), |mut acc, i| {
        acc += &i.to_string();
        acc
    });
    assert_eq!(msg.byte_len(), 18894);
    let mut com1: InnerUdpCommunicator<String, String> = InnerUdpCommunicator::new(1, 0);
    let mut com2: InnerUdpCommunicator<String, String> = InnerUdpCommunicator::new(1, 0);
    com1.write(msg.clone());
    // Messages are never split, and this one does not fit into a packet: it cannot be sent,
    // so nothing reaches the other side.
    assert!(msg.byte_len() > MAX_PACKET_DATA_LEN);
    assert_eq!(com1.unreliable_send_queue, vec![msg]);
    assert!(!com1.check_queues_fit());
    assert!(com1.has_work());
    assert!(com2.read().is_none());
}

/// Packets 0, 1 and 2 arrive as 2, 0, 2, 1: the messages come out once each, in packet order,
/// and the read head ends past packet 2.
#[test]
fn ordered_packets_delivered_in_order_whatever_the_arrival() {
    let (_, mut b) = pair();
    let packets: [Vec<u16>; 3] = [vec![10, 11], vec![20], vec![30, 31]];
    for seq in [2u16, 0, 2, 1] {
        let p = Packet {
            ack: ack_for(seq),
            ty: PacketData::ReliableOrdered { messages: packets[seq as usize].clone() },
        };
        assert_eq!(b.receive_packet(p, 0), Some(Ok(())));
        if seq == 2 && b.ordered_read_packet_head == 0 {
            assert_eq!(b.read_ordered(), None);
        }
    }
    assert_eq!(b.ordered_read_packet_head, 3);
    let mut got = Vec::new();
    while let Some(m) = b.read_ordered() {
        got.push(m);
    }
    assert_eq!(got, vec![10, 11, 20, 30, 31]);
    assert!(b.received_packet_duplicate);
}

/// Three windows of 32 ordered packets, each arriving last to first and every other one twice:
/// every message comes out once, in packet order, and the read head ends past the last packet.
#[test]
fn ordered_packets_delivered_in_order_across_windows() {
    let (_, mut b) = pair();
    for w in 0u16..3 {
        for k in (0u16..32).rev() {
            let seq = 32 * w + k;
            let times = if k % 2 == 0 { 2 } else { 1 };
            for _ in 0..times {
                let p = Packet {
                    ack: ack_for(seq),
                    ty: PacketData::ReliableOrdered { messages: vec![seq, seq + 1000] },
                };
                assert_eq!(b.receive_packet(p, 0), Some(Ok(())));
            }
        }
        assert_eq!(b.ordered_read_packet_head, 32 * (w + 1));
    }
    let mut got = Vec::new();
    while let Some(m) = b.read_ordered() {
        got.push(m);
    }
    let expected: Vec<u16> = (0u16..96).flat_map(|s| [s, s + 1000]).collect();
    assert_eq!(got, expected);
}

/// A message too large for a packet only matters once packing reaches it: behind 32 pending
/// packets it waits, and sending goes on; with room free it blocks sending.
#[test]
fn oversized_message_matters_only_when_packed() {
    let mut a: InnerUdpCommunicator<String, String> = InnerUdpCommunicator::new(VERSION, 0);
    let fill = "x".repeat(MAX_PACKET_DATA_LEN - 4);
    for _ in 0..32 {
        a.write_reliable(fill.clone());
    }
    assert!(a.check_queues_fit());
    a.flush_messages();
    assert_eq!(a.reliable_send_packets.len(), 32);
    let huge = "y".repeat(2 * MAX_PACKET_DATA_LEN);
    a.write_reliable(huge.clone());
    assert!(a.check_queues_fit());
    let frames = a.prepare_send(0);
    assert_eq!(frames.len(), 32);
    assert_eq!(a.reliable_send_queue, vec![huge.clone()]);

    let mut b: InnerUdpCommunicator<String, String> = InnerUdpCommunicator::new(VERSION, 0);
    b.write_reliable(huge);
    assert!(!b.check_queues_fit());
}

/// CRC-32/BZIP2 computed bit by bit, as the library states it.
fn crc32_bitwise(init: u32, bytes: &[u8]) -> u32 {
    let mut c = init;
    for &b in bytes {
        c ^= (b as u32) << 24;
        for _ in 0..8 {
            c = if c & 0x8000_0000 != 0 { (c << 1) ^ 0x04C1_1DB7 } else { c << 1 };
        }
    }
    c ^ 0xFFFF_FFFF
}

/// The CRC of a frame is the bitwise CRC-32/BZIP2 of the packet bytes, seeded by the version.
#[test]
fn frame_crc_is_bitwise_crc32_bzip2() {
    assert_eq!(crc32_bitwise(0xFFFF_FFFF, b"123456789"), 0xFC89_1918);
    for version in [0u32, 2, 0xFFFF_FFFF, 0x1234_5678] {
        let p = Packet { ack: ack_for(7), ty: PacketData::<u16>::ReliableOrdered { messages: vec![1, 2, 3] } };
        let mut buffer = vec![0u8; 64];
        let len = write_frame(&p, version, &mut buffer).unwrap();
        let crc = u32::from_le_bytes([buffer[0], buffer[1], buffer[2], buffer[3]]);
        assert_eq!(crc, crc32_bitwise(version, &buffer[4..len]));
    }
}
