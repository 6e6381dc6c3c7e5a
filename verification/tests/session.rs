use mini_udp::connection::{
    ConnectionState, InsecureConnection, InsecureConnectionEstablishment, PeerAddr,
    UnprotectedWithSalt,
};
use mini_udp::context::Priority;
use mini_udp::fragmentation::UnreliableFragmentationHandler;
use mini_udp::packet::PacketData;
use mini_udp::reliable_ordered::{MessageState, MessageTrace, ReliableOrdered, ReliablePacketState};
use mini_udp::communicator::FixedResend;
use mini_udp::session::{Packet, PacketAck, PartialPacketAck};
use mini_udp::session_inner::InnerCommunicator;
use mini_udp::{ByteRepr, Error, StaticByteRepr};

/// 127.0.0.1 as an IPv4-mapped IPv6 address.
const LOCALHOST: u128 = 0xffff_7f00_0001;
const ADDR1: PeerAddr = PeerAddr { ip: LOCALHOST, port: 7500 };
const ADDR2: PeerAddr = PeerAddr { ip: LOCALHOST, port: 7501 };
const VERSION: u32 = 0;

type Side = InnerCommunicator<bool, bool>;

/// Hand each frame that `from` (at `from_addr`) sends at `now` to `to`.
fn exchange(from: &mut Side, from_addr: PeerAddr, to: &mut Side, to_addr: PeerAddr, now: u64) {
    if let Some((addr, frames)) = from.send(now) {
        assert_eq!(addr, to_addr);
        for f in frames {
            let r = to.receive_datagram(from_addr, &f, now);
            assert!(matches!(r, Some(Ok(()))), "{r:?}");
        }
    }
}

#[test]
fn connect() {
    let mut com1: Side = InnerCommunicator::new(VERSION, 0);
    let mut com2: Side = InnerCommunicator::new(VERSION, 0);

    assert!(com1.connection.state().idle());
    com1.connect(ADDR2, 0).unwrap();
    assert!(com1.connection.state().connecting());
    assert!(com2.connection.state().idle());

    for now in 0..5 {
        exchange(&mut com1, ADDR1, &mut com2, ADDR2, now);
        exchange(&mut com2, ADDR2, &mut com1, ADDR1, now);
    }

    assert!(com1.connection.state().connected());
    assert!(com2.connection.state().connected());
    assert_eq!(com1.connection.data_salt(), com2.connection.data_salt());
}

#[test]
fn ordered_messages_after_connecting() {
    let mut com1: Side = InnerCommunicator::new(VERSION, 0);
    let mut com2: Side = InnerCommunicator::new(VERSION, 0);
    com1.connect_with_salt(ADDR2, 0, 0xabcd).unwrap();
    for now in 0..3 {
        exchange(&mut com1, ADDR1, &mut com2, ADDR2, now);
        exchange(&mut com2, ADDR2, &mut com1, ADDR1, now);
    }
    assert!(com1.connection.state().connected());
    // The packets of com1 got acknowledged; com2's last one waits for a packet of com1 that
    // carries the acknowledgement.
    assert!(!com1.has_work());
    assert!(com2.has_work());
    com1.write_ordered(true, Priority::Low);
    com1.write_ordered(false, Priority::High);
    assert!(com1.has_work());
    let (addr, frames) = com1.send(10).unwrap();
    assert_eq!(addr, ADDR2);
    assert_eq!(frames.len(), 1);
    assert_eq!(com1.last_send, 10);
    // Data packets are not handled by this side yet.
    assert_eq!(com2.receive_datagram(ADDR1, &frames[0], 11), None);
    assert_eq!(com2.read_ordered(), None);
}

#[test]
fn handshake_frame_is_resent_until_acknowledged() {
    let mut com1: Side = InnerCommunicator::new(VERSION, 0);
    com1.connect_with_salt(ADDR2, 0, 1).unwrap();
    let (_, first) = com1.send(0).unwrap();
    assert_eq!(first.len(), 1);
    // Not due again before the resend interval.
    let (_, none) = com1.send(50).unwrap();
    assert!(none.is_empty());
    assert_eq!(com1.last_send, 0);
    let (_, again) = com1.send(101).unwrap();
    assert_eq!(again, first);
    assert_eq!(com1.last_send, 101);
}

#[test]
fn duplicate_handshake_packet_sets_flag() {
    let mut com1: Side = InnerCommunicator::new(VERSION, 0);
    let mut com2: Side = InnerCommunicator::new(VERSION, 0);
    com1.connect_with_salt(ADDR2, 0, 7).unwrap();
    let (_, frames) = com1.send(0).unwrap();
    assert_eq!(com2.receive_datagram_with_salt(ADDR1, &frames[0], 9, 0), Some(Ok(())));
    assert!(com2.connection.state().connecting());
    assert!(!com2.received_packet_duplicate);
    assert_eq!(com2.receive_datagram_with_salt(ADDR1, &frames[0], 9, 0), Some(Ok(())));
    assert!(com2.received_packet_duplicate);
    // Sending clears the flag.
    let _ = com2.send(1);
    assert!(!com2.received_packet_duplicate);
}

#[test]
fn corrupted_datagram_is_refused() {
    let mut com1: Side = InnerCommunicator::new(VERSION, 0);
    let mut com2: Side = InnerCommunicator::new(VERSION + 1, 0);
    com1.connect_with_salt(ADDR2, 0, 7).unwrap();
    let (_, frames) = com1.send(0).unwrap();
    // Another protocol version seeds another CRC.
    assert_eq!(com2.receive_datagram(ADDR1, &frames[0], 0), Some(Err(Error::CrcFailed)));
    assert!(com2.connection.state().idle());
    assert_eq!(
        com2.receive_datagram(ADDR1, &[1, 2], 0),
        Some(Err(Error::PacketLengthLessThanCrcBytes))
    );
}

#[test]
fn challenge_from_wrong_peer_is_unexpected() {
    let mut com1: Side = InnerCommunicator::new(VERSION, 0);
    com1.connect_with_salt(ADDR2, 0, 7).unwrap();
    let mut other = InsecureConnection::new();
    let challenge = InsecureConnectionEstablishment::Challenge { local_salt: 7, remote_salt: 1 };
    let packet = Packet::<bool>::Connection {
        sequence_id: 0,
        ack: PacketAck::from_reliable_ordered_ack(PartialPacketAck::new((u16::MAX, 0))),
        con_data: challenge,
    };
    let mut buf = vec![0u8; 256];
    let n = other.write_packet(VERSION, &mut buf, packet).unwrap();
    let stranger = PeerAddr { ip: LOCALHOST, port: 9999 };
    assert_eq!(
        com1.receive_datagram_with_salt(stranger, &buf[..n], 0, 1),
        Some(Err(Error::UnexpectedMessage))
    );
    // The challenge from the right peer is taken and answered.
    let mut com1b: Side = InnerCommunicator::new(VERSION, 0);
    com1b.connect_with_salt(ADDR2, 0, 7).unwrap();
    assert_eq!(com1b.receive_datagram_with_salt(ADDR2, &buf[..n], 0, 1), Some(Ok(())));
    assert_eq!(
        *com1b.connection.state(),
        ConnectionState::OutgoingConnectRequest {
            addr: ADDR2,
            instant: 0,
            salt: 7 ^ 1,
            received_challenge: true
        }
    );
}

#[test]
fn session_packet_roundtrip() {
    let salt = 0x5a5a;
    let mut writer = InsecureConnection {
        state: ConnectionState::Connected {
            addr: ADDR2,
            connected_since: 0,
            info: UnprotectedWithSalt { salt },
        },
    };
    let mut reader = InsecureConnection {
        state: ConnectionState::Connected {
            addr: ADDR1,
            connected_since: 0,
            info: UnprotectedWithSalt { salt },
        },
    };
    let ack = PacketAck {
        reliable_newest_received: 1,
        reliable_ack_bits: 2,
        ordered_newest_received: 3,
        ordered_ack_bits: 4,
    };
    assert_eq!(PacketAck::BYTE_LEN, 12);
    let packet = Packet::<u16>::Data {
        sequence_id: 42,
        ack,
        data: PacketData::ReliableOrdered { messages: vec![7, 8] },
    };
    let mut buf = vec![0u8; 128];
    let n = writer.write_packet(VERSION, &mut buf, packet).unwrap();
    // CRC, header, kind, message count, messages.
    assert_eq!(n, 4 + 19 + 1 + 4 + 4);
    match reader.read_packet::<u16>(VERSION, ADDR1, &buf[..n]) {
        Some(Ok(Packet::Data { sequence_id, ack: a, data })) => {
            assert_eq!(sequence_id, 42);
            assert_eq!(a, ack);
            match data {
                PacketData::ReliableOrdered { messages } => assert_eq!(messages, vec![7, 8]),
                _ => panic!("wrong data kind"),
            }
        }
        _ => panic!("expected the data packet"),
    }
    // Another salt belongs to another session.
    let mut stale = InsecureConnection {
        state: ConnectionState::Connected {
            addr: ADDR1,
            connected_since: 0,
            info: UnprotectedWithSalt { salt: salt ^ 1 },
        },
    };
    assert!(matches!(
        stale.read_packet::<u16>(VERSION, ADDR1, &buf[..n]),
        Some(Err(Error::PacketSessionMismatch))
    ));
    // A buffer too short for the frame is refused.
    let mut small = vec![0u8; 10];
    let packet = Packet::<u16>::Data {
        sequence_id: 1,
        ack,
        data: PacketData::ReliableOrdered { messages: vec![1] },
    };
    assert!(writer.write_packet(VERSION, &mut small, packet).is_err());
}

#[test]
fn establishment_messages_roundtrip() {
    let tags: Vec<u8> = vec![0, 1, 2, 3];
    let msgs = [
        InsecureConnectionEstablishment::Connect { local_salt: 5, ddos_padding: [0; 200] },
        InsecureConnectionEstablishment::Challenge { local_salt: 1, remote_salt: 2 },
        InsecureConnectionEstablishment::ChallengeResponse { salt: 3 },
        InsecureConnectionEstablishment::ConnectionAccepted { salt: 4 },
    ];
    let lens = [1 + 4 + 200, 1 + 8, 1 + 4, 1 + 4];
    for ((m, len), tag) in msgs.iter().zip(lens).zip(tags) {
        assert_eq!(m.byte_len(), len);
        let mut buf = vec![0u8; len];
        m.write_to_bytes(&mut buf).unwrap();
        assert_eq!(buf[0], tag);
        let back = InsecureConnectionEstablishment::from_bytes(&buf).unwrap();
        let mut again = vec![0u8; len];
        back.write_to_bytes(&mut again).unwrap();
        assert_eq!(again, buf);
    }
}

#[test]
fn reliable_ordered_delivers_in_order() {
    let mut ro: ReliableOrdered<u16, u16> = ReliableOrdered::new();
    assert_eq!(ro.read_packet(1, vec![2]), Ok(false));
    assert_eq!(ro.next(), None);
    assert_eq!(ro.read_packet(0, vec![1]), Ok(false));
    assert_eq!(ro.next(), Some(1));
    assert_eq!(ro.next(), Some(2));
    assert_eq!(ro.next(), None);
    // A packet received before is a duplicate.
    assert_eq!(ro.read_packet(1, vec![2]), Ok(true));
    assert_eq!(ro.get_ack(), (1, 0b11));
}

#[test]
fn reliable_ordered_flush_and_acknowledge() {
    let salt = 9;
    let mut con = InsecureConnection {
        state: ConnectionState::Connected {
            addr: ADDR2,
            connected_since: 0,
            info: UnprotectedWithSalt { salt },
        },
    };
    let resend = FixedResend::new();
    let mut ro: ReliableOrdered<u16, u16> = ReliableOrdered::new();
    ro.queue_message(5, Priority::Low);
    ro.queue_message(6, Priority::High);
    assert!(ro.has_work());
    let ack = PacketAck {
        reliable_newest_received: 0,
        reliable_ack_bits: 0,
        ordered_newest_received: u16::MAX,
        ordered_ack_bits: 0,
    };
    assert_eq!(ro.flush_messages(&mut con, &resend, ack, VERSION), Ok(()));
    let frames = ro.send(&resend, 0);
    assert_eq!(frames.len(), 1);
    let mut reader = InsecureConnection {
        state: ConnectionState::Connected {
            addr: ADDR1,
            connected_since: 0,
            info: UnprotectedWithSalt { salt },
        },
    };
    match reader.read_packet::<u16>(VERSION, ADDR1, &frames[0]) {
        Some(Ok(Packet::Data { sequence_id: 0, data: PacketData::ReliableOrdered { messages }, .. })) => {
            assert_eq!(messages, vec![5, 6]);
        }
        _ => panic!("expected the data packet"),
    }
    assert!(ro.has_work());
    ro.acknowledge(0, 1, 5);
    assert!(!ro.has_work());
    assert!(ro.send(&resend, 1000).is_empty());
}

#[test]
fn reliable_ordered_buffer_full() {
    let mut ro: ReliableOrdered<u16, u16> = ReliableOrdered::new();
    let resend = FixedResend::new();
    for _ in 0..32 {
        let (seq, _) = ro.write_packet().unwrap();
        assert_eq!(ro.commit_packet(vec![seq as u8], Priority::High, &resend), seq);
    }
    assert_eq!(ro.write_packet(), Err(Error::PacketSendBufferFull));
}

#[test]
fn unreliable_messages_are_queued_by_priority() {
    let mut com: Side = InnerCommunicator::new(VERSION, 0);
    assert!(!com.has_work());
    com.write(true, Priority::High);
    com.write(false, Priority::Low);
    com.write(true, Priority::Default);
    assert!(com.has_work());
    assert_eq!(com.unreliable.high_send_queue, vec![true]);
    assert_eq!(com.unreliable.low_send_queue, vec![false]);
    assert_eq!(com.unreliable.default_send_queue, vec![true]);
    let mut u = mini_udp::unreliable::Unreliable::<u8>::new();
    assert!(!u.has_work());
    u.queue_message(1, Priority::Default);
    u.queue_message(2, Priority::Default);
    assert_eq!(u.default_send_queue, vec![1, 2]);
    assert!(mini_udp::context::MightHaveWork::has_work(&u));
}

#[test]
fn fragments_are_ignored_without_fragmentation() {
    let mut data = [7u8; 1024];
    <() as UnreliableFragmentationHandler>::read_fragment(1, 0, 2, &mut data);
    assert_eq!(data, [7u8; 1024]);
}

#[test]
fn traced_message_follows_its_packet() {
    let salt = 9;
    let mut con = InsecureConnection {
        state: ConnectionState::Connected {
            addr: ADDR2,
            connected_since: 0,
            info: UnprotectedWithSalt { salt },
        },
    };
    let resend = FixedResend::new();
    let ack = PacketAck {
        reliable_newest_received: 0,
        reliable_ack_bits: 0,
        ordered_newest_received: u16::MAX,
        ordered_ack_bits: 0,
    };
    let mut ro: ReliableOrdered<u16, u16> = ReliableOrdered::new();
    ro.queue_message(1, Priority::Low);
    let trace = ro.queue_message_with_trace(2, Priority::High).unwrap();
    assert_eq!(trace, MessageTrace { ticket: 0 });
    assert_eq!(ro.message_state(&trace), Some(MessageState::Queued));
    assert_eq!(ro.message_state(&MessageTrace { ticket: 7 }), None);
    ro.flush_messages(&mut con, &resend, ack, VERSION).unwrap();
    let packeted = |state| Some(MessageState::Packeted {
        packet_id: 0,
        packet_priority: Priority::High,
        state,
    });
    assert_eq!(ro.message_state(&trace), packeted(ReliablePacketState::Constructed));
    assert_eq!(ro.send(&resend, 10).len(), 1);
    assert_eq!(
        ro.message_state(&trace),
        packeted(ReliablePacketState::Sending { first_send: 10, times_send: 1 })
    );
    assert_eq!(ro.send(&resend, 200).len(), 1);
    assert_eq!(
        ro.message_state(&trace),
        packeted(ReliablePacketState::Sending { first_send: 10, times_send: 2 })
    );
    ro.acknowledge(0, 1, 250);
    assert!(!ro.has_work());
    assert_eq!(
        ro.message_state(&trace),
        packeted(ReliablePacketState::Acknowledged {
            first_send: 10,
            times_send: 2,
            ack_received: 250
        })
    );
    assert_eq!(ro.finished.len(), 1);
}

#[test]
fn traced_packet_reaches_send_limit() {
    let mut con = InsecureConnection {
        state: ConnectionState::Connected {
            addr: ADDR2,
            connected_since: 0,
            info: UnprotectedWithSalt { salt: 1 },
        },
    };
    let mut resend = FixedResend::new();
    resend.set_max_retries(0);
    let ack = PacketAck {
        reliable_newest_received: 0,
        reliable_ack_bits: 0,
        ordered_newest_received: u16::MAX,
        ordered_ack_bits: 0,
    };
    let mut ro: ReliableOrdered<u16, u16> = ReliableOrdered::new();
    let trace = ro.queue_message_with_trace(3, Priority::Default).unwrap();
    ro.queue_message(4, Priority::Low);
    ro.flush_messages(&mut con, &resend, ack, VERSION).unwrap();
    assert_eq!(ro.send(&resend, 7).len(), 1);
    assert!(!ro.has_work());
    assert_eq!(
        ro.message_state(&trace),
        Some(MessageState::Packeted {
            packet_id: 0,
            packet_priority: Priority::Default,
            state: ReliablePacketState::SendLimitReached { first_send: 7, times_send: 1 },
        })
    );
    // Untraced packets leave no trace behind.
    let mut plain: ReliableOrdered<u16, u16> = ReliableOrdered::new();
    plain.queue_message(5, Priority::Low);
    plain.flush_messages(&mut con, &resend, ack, VERSION).unwrap();
    plain.send(&resend, 7);
    assert!(plain.finished.is_empty());
}

/// After its packet leaves, a traced message is neither reported queued again nor lost, while
/// later messages are queued and sent.
#[test]
fn traced_message_is_never_queued_again_nor_lost() {
    let mut con = InsecureConnection {
        state: ConnectionState::Connected {
            addr: ADDR2,
            connected_since: 0,
            info: UnprotectedWithSalt { salt: 3 },
        },
    };
    let resend = FixedResend::new();
    let ack = PacketAck {
        reliable_newest_received: 0,
        reliable_ack_bits: 0,
        ordered_newest_received: u16::MAX,
        ordered_ack_bits: 0,
    };
    let mut ro: ReliableOrdered<u16, u16> = ReliableOrdered::new();
    let first = ro.queue_message_with_trace(1, Priority::Low).unwrap();
    ro.flush_messages(&mut con, &resend, ack, VERSION).unwrap();
    let second = ro.queue_message_with_trace(2, Priority::High).unwrap();
    assert_eq!(second, MessageTrace { ticket: 1 });
    assert_eq!(ro.message_state(&second), Some(MessageState::Queued));
    for now in [10u64, 20, 30] {
        let state = ro.message_state(&first);
        assert!(state.is_some());
        assert_ne!(state, Some(MessageState::Queued));
        ro.flush_messages(&mut con, &resend, ack, VERSION).unwrap();
        ro.send(&resend, now);
    }
    ro.acknowledge(1, 0b11, 40);
    assert!(!ro.has_work());
    for t in [first, second] {
        let state = ro.message_state(&t);
        assert!(matches!(
            state,
            Some(MessageState::Packeted { state: ReliablePacketState::Acknowledged { .. }, .. })
        ));
    }
}

/// A session side reads two windows of 32 ordered packets arriving out of order, some twice:
/// the messages come out once each, in packet order.
#[test]
fn session_reads_ordered_packets_in_order_across_windows() {
    let mut ro: ReliableOrdered<u16, u16> = ReliableOrdered::new();
    for w in 0u16..2 {
        for k in (0u16..32).rev().chain([5u16, 0]) {
            let seq = 32 * w + k;
            let first = ro.read_packet(seq, vec![seq]);
            assert!(first.is_ok());
        }
        assert_eq!(ro.read_packet_head, 32 * (w + 1));
    }
    let mut got = Vec::new();
    while let Some(m) = ro.next() {
        got.push(m);
    }
    assert_eq!(got, (0u16..64).collect::<Vec<u16>>());
}

/// Two traced messages in two packets each follow their own packet: acknowledging the second
/// packet finishes the second trace only.
#[test]
fn traces_follow_their_own_packets() {
    let mut con = InsecureConnection {
        state: ConnectionState::Connected {
            addr: ADDR2,
            connected_since: 0,
            info: UnprotectedWithSalt { salt: 5 },
        },
    };
    let resend = FixedResend::new();
    let ack = PacketAck {
        reliable_newest_received: 0,
        reliable_ack_bits: 0,
        ordered_newest_received: u16::MAX,
        ordered_ack_bits: 0,
    };
    let mut ro: ReliableOrdered<u16, u16> = ReliableOrdered::new();
    let first = ro.queue_message_with_trace(1, Priority::Low).unwrap();
    ro.flush_messages(&mut con, &resend, ack, VERSION).unwrap();
    let second = ro.queue_message_with_trace(2, Priority::High).unwrap();
    ro.flush_messages(&mut con, &resend, ack, VERSION).unwrap();
    assert_eq!(ro.send(&resend, 10).len(), 2);
    ro.acknowledge(1, 0b1, 20);
    assert_eq!(
        ro.message_state(&first),
        Some(MessageState::Packeted {
            packet_id: 0,
            packet_priority: Priority::Low,
            state: ReliablePacketState::Sending { first_send: 10, times_send: 1 },
        })
    );
    assert_eq!(
        ro.message_state(&second),
        Some(MessageState::Packeted {
            packet_id: 1,
            packet_priority: Priority::High,
            state: ReliablePacketState::Acknowledged {
                first_send: 10,
                times_send: 1,
                ack_received: 20
            },
        })
    );
}
