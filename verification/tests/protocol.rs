use mini_udp::connection::{
    ConnectionState, InsecureConnection, InsecureConnectionEstablishment, PeerAddr,
    UnprotectedWithSalt,
};
use mini_udp::context::{ErrorCache, ErrorHandlingStrategy, LimitedErrorCache, Priority};
use mini_udp::layout::{data_access_type, variant_tag_len, DataAccessType};
use mini_udp::packet::{MaxConcurrentPackets, PacketAck, PacketData, ReliablePacketKind};
use mini_udp::ring_buffer::RingBuffer;
use mini_udp::{ByteRepr, ByteReprError, Error, StaticByteRepr};

const A: PeerAddr = PeerAddr { ip: 1, port: 7500 };
const B: PeerAddr = PeerAddr { ip: 1, port: 7501 };

fn connect_msg(salt: u32) -> InsecureConnectionEstablishment {
    InsecureConnectionEstablishment::Connect { local_salt: salt, ddos_padding: [0; 200] }
}

#[test]
fn handshake_connects_both_sides() {
    let mut a = InsecureConnection::new();
    let mut b = InsecureConnection::new();
    assert!(a.state().idle());
    let request = a.connect_with_salt(B, 0, 0x1234);
    assert!(a.state().connecting());
    assert!(b.state().idle());
    let (established, challenge) = b
        .incoming_connect_with_salt(A, request, |_| true, 0xff00, 1)
        .unwrap();
    assert!(!established);
    assert!(b.state().connecting());
    let challenge = challenge.unwrap();
    let (established, response) = a
        .incoming_connect_with_salt(B, challenge, |_| true, 0, 2)
        .unwrap();
    assert!(!established);
    let (established, accepted) = b
        .incoming_connect_with_salt(A, response.unwrap(), |_| true, 0, 3)
        .unwrap();
    assert!(established);
    let (established, reply) = a
        .incoming_connect_with_salt(B, accepted.unwrap(), |_| true, 0, 4)
        .unwrap();
    assert!(established);
    assert!(reply.is_none());
    assert!(a.state().connected());
    assert!(b.state().connected());
    let salt = 0x1234 ^ 0xff00;
    assert_eq!(a.data_salt(), Some(salt));
    assert_eq!(b.data_salt(), Some(salt));
    assert_eq!(
        *a.state(),
        ConnectionState::Connected {
            addr: B,
            connected_since: 4,
            info: UnprotectedWithSalt { salt }
        }
    );
    assert_eq!(a.check_data_packet(B, salt), Ok(()));
    assert_eq!(a.check_data_packet(B, salt ^ 1), Err(Error::PacketSessionMismatch));
    assert_eq!(a.check_data_packet(A, salt), Err(Error::UnexpectedMessage));
    assert_eq!(a.send_addr(), Some(B));
}

#[test]
fn refused_request_changes_nothing() {
    let mut b = InsecureConnection::new();
    let r = b.incoming_connect_with_salt(A, connect_msg(5), |_| false, 9, 0);
    assert!(matches!(r, Ok((false, None))));
    assert!(b.state().idle());
    assert_eq!(b.send_addr(), None);
}

#[test]
fn already_connected_refuses_requests() {
    let mut b = InsecureConnection {
        state: ConnectionState::Connected {
            addr: A,
            connected_since: 0,
            info: UnprotectedWithSalt { salt: 3 },
        },
    };
    let r = b.incoming_connect_with_salt(B, connect_msg(5), |_| true, 9, 0);
    assert!(matches!(r, Err(Error::AlreadyConnected)));
    let r = b.incoming_connect_with_salt(A, InsecureConnectionEstablishment::ChallengeResponse { salt: 3 }, |_| true, 9, 0);
    assert!(matches!(r, Err(Error::UnexpectedMessage)));
}

#[test]
fn wrong_challenge_is_unexpected() {
    let mut a = InsecureConnection::new();
    a.connect_with_salt(B, 0, 7);
    let bad = InsecureConnectionEstablishment::Challenge { local_salt: 8, remote_salt: 1 };
    let r = a.incoming_connect_with_salt(B, bad, |_| true, 0, 1);
    assert!(matches!(r, Err(Error::UnexpectedMessage)));
    // Data from the peer is not accepted before the challenge arrived.
    assert_eq!(a.check_data_packet(B, 7), Err(Error::UnexpectedMessage));
}

#[test]
fn random_salt_connect() {
    let mut a = InsecureConnection::new();
    let request = a.connect(B, 3);
    match (request, *a.state()) {
        (
            InsecureConnectionEstablishment::Connect { local_salt, ddos_padding },
            ConnectionState::OutgoingConnectRequest { addr, instant, salt, received_challenge },
        ) => {
            assert_eq!(local_salt, salt);
            assert_eq!(addr, B);
            assert_eq!(instant, 3);
            assert!(!received_challenge);
            assert!(ddos_padding.iter().all(|b| *b == 0));
        }
        _ => panic!("not connecting"),
    }
    let mut b = InsecureConnection::new();
    let r = b.incoming_connect(A, request, |addr| addr == A, 4);
    assert!(matches!(r, Ok((false, Some(InsecureConnectionEstablishment::Challenge { .. })))));
}

#[test]
fn error_cache_keeps_all_errors() {
    let mut errors = Vec::new();
    ErrorCache::handle_error(&mut errors, Error::CrcFailed);
    ErrorCache::handle_error(&mut errors, Error::PacketLengthLessThanCrcBytes);
    let mut drained = errors.drain(..);
    assert_eq!(drained.next(), Some(Error::CrcFailed));
    assert_eq!(drained.next(), Some(Error::PacketLengthLessThanCrcBytes));
    assert_eq!(drained.next(), None);
}

#[test]
fn limited_error_cache_drops_when_full() {
    let mut errors = Vec::new();
    for _ in 0..3 {
        LimitedErrorCache::<2>::handle_error(&mut errors, Error::MessageTooBig);
    }
    assert_eq!(errors.len(), 2);
}

#[test]
fn error_equality() {
    assert_eq!(Error::ByteRepr(ByteReprError::InvalidValue), Error::ByteRepr(ByteReprError::InvalidValue));
    assert_ne!(Error::ByteRepr(ByteReprError::InvalidValue), Error::ByteRepr(ByteReprError::SliceTooShort));
    assert_eq!(
        Error::PacketTooOld { sequence_id: 1, newest_id: 2 },
        Error::PacketTooOld { sequence_id: 1, newest_id: 2 }
    );
    assert_ne!(Error::NotConnected, Error::AlreadyConnected);
    let io = || Error::Io(std::io::Error::new(std::io::ErrorKind::Other, "x"));
    assert_ne!(io(), io());
}

#[test]
fn priority_default() {
    assert_eq!(Priority::default(), Priority::Default);
}

#[test]
fn ack_flags() {
    let mut flags = u32::UNSET;
    flags.set_ack_flag(0);
    flags.set_ack_flag(5);
    flags.set_ack_flag(31);
    assert_eq!(flags, 1 | 1 << 5 | 1 << 31);
    assert_eq!(flags.iter_acknowledged(), vec![0, 5, 31]);
    let mut small = u8::UNSET;
    small.set_ack_flag(7);
    assert_eq!(small.iter_acknowledged(), vec![7]);
    let mut big = u128::UNSET;
    big.set_ack_flag(127);
    assert_eq!(big.iter_acknowledged(), vec![127]);
    assert_eq!(0u16.iter_acknowledged(), Vec::<u16>::new());
    assert_eq!(u64::MAX.iter_acknowledged().len(), 64);
}

#[test]
fn packet_ack_reflects_received() {
    let mut reliable = RingBuffer::<(), 32>::new();
    let mut ordered = RingBuffer::<Vec<u8>, 32>::new();
    reliable.push(());
    reliable.push(());
    reliable.insert(4, ());
    ordered.push(vec![]);
    let ack = PacketAck::new(9, &reliable, &ordered);
    assert_eq!(ack.sequence_id, 9);
    assert_eq!(ack.reliable_newest_received, 4);
    assert_eq!(ack.reliable_ack_bits, 0b11001);
    assert_eq!(ack.ordered_newest_received, 0);
    assert_eq!(ack.ordered_ack_bits, 1);
    assert_eq!(PacketAck::MIN_BYTE_LEN, 14);
    assert_eq!(PacketAck::BYTE_LEN, 14);
}

#[test]
fn reliable_kinds() {
    assert_eq!(PacketData::<u8>::Heartbeat.get_reliable_kind(), None);
    assert_eq!(
        PacketData::<u8>::ReliableOrdered { messages: vec![] }.get_reliable_kind(),
        Some(ReliablePacketKind::Ordered)
    );
    assert_eq!(
        PacketData::<u8>::ReliableUnordered { messages: vec![] }.get_reliable_kind(),
        Some(ReliablePacketKind::Unordered)
    );
    assert_eq!(PacketData::<u8>::Unreliable { messages: vec![] }.get_reliable_kind(), None);
}

#[test]
fn enum_tag_layout() {
    assert_eq!(variant_tag_len(0), 0);
    assert_eq!(variant_tag_len(1), 0);
    assert_eq!(variant_tag_len(2), 1);
    assert_eq!(variant_tag_len(256), 1);
    assert_eq!(variant_tag_len(257), 2);
    assert_eq!(data_access_type(0), None);
    assert_eq!(data_access_type(3), Some(DataAccessType::U8));
    assert_eq!(data_access_type(300), Some(DataAccessType::U16));
    assert_eq!(data_access_type(70_000), Some(DataAccessType::U32));
    assert_eq!(DataAccessType::U16.as_str(), "u16");
}
