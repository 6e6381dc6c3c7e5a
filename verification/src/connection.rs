//! Establishing a connection between two communicators.
//!
//! The insecure connection runs a three-way handshake that agrees on a salt: the side that
//! connects sends its own salt, the other side answers with a challenge that carries both
//! salts, the connecting side answers with the XOR of both, and the other side accepts the
//! connection with that salt. Every data packet of the connection then carries the salt.
//!
//! The decisions are made here; the caller sends the replies (reliably and in order) and
//! supplies the time and, where a salt is drawn, the random source.
use vstd::prelude::*;
use crate::error::Error;

verus! {

/// The address of a peer: its IP address (IPv4 addresses as IPv4-mapped IPv6 addresses) and
/// its port.
#[derive(Debug, Clone, Copy, PartialEq, Eq, Structural)]
pub struct PeerAddr {
    pub ip: u128,
    pub port: u16,
}

/// What protects the packets of a connection: here, only a salt shared by both sides.
#[derive(Debug, Clone, Copy, PartialEq, Eq, Structural)]
pub struct UnprotectedWithSalt<SALT> {
    pub salt: SALT,
}

/// How a connection is protected: the header each data packet carries.
pub trait PacketProtection {
    /// The header each data packet carries.
    type Header;
}

impl<SALT> PacketProtection for UnprotectedWithSalt<SALT> {
    type Header = SALT;
}

/// The messages of the handshake.
#[derive(Debug, Clone, Copy)]
pub enum InsecureConnectionEstablishment {
    /// Ask for a connection, with the salt of the side that connects. The padding makes the
    /// request as large as the challenge it causes, or larger.
    Connect { local_salt: u32, ddos_padding: [u8; 200] },
    /// Answer a request: the salt of the request and the salt of the answering side.
    Challenge { local_salt: u32, remote_salt: u32 },
    /// Answer a challenge with the XOR of both salts.
    ChallengeResponse { salt: u32 },
    /// Accept the connection with the agreed salt.
    ConnectionAccepted { salt: u32 },
}

/// The state of a connection.
#[derive(Debug, Clone, Copy, PartialEq, Eq, Structural)]
pub enum ConnectionState {
    /// No connection and no attempt to connect.
    Disconnected,
    /// The last connection ended or the last attempt to connect failed, at `aborted_since`.
    Aborted { addr: PeerAddr, aborted_since: u64 },
    /// Connecting to `addr`: the request was sent at `instant`. `salt` is the own salt until the
    /// challenge arrived, the agreed salt afterwards.
    OutgoingConnectRequest { addr: PeerAddr, instant: u64, salt: u32, received_challenge: bool },
    /// A request of `addr` was answered at `instant`; `salt` is the agreed salt.
    IncomingConnectRequest { addr: PeerAddr, instant: u64, salt: u32 },
    /// Connected to `addr` since `connected_since`.
    Connected { addr: PeerAddr, connected_since: u64, info: UnprotectedWithSalt<u32> },
}

impl ConnectionState {
    /// Whether the connection is established.
    pub fn connected(&self) -> (r: bool)
        ensures
            r == self is Connected,
    {
        match self {
            ConnectionState::Connected { .. } => true,
            _ => false,
        }
    }

    /// Whether a handshake is under way.
    pub fn connecting(&self) -> (r: bool)
        ensures
            r == (self is OutgoingConnectRequest || self is IncomingConnectRequest),
    {
        match self {
            ConnectionState::OutgoingConnectRequest { .. } => true,
            ConnectionState::IncomingConnectRequest { .. } => true,
            _ => false,
        }
    }

    /// Whether there is neither a connection nor a handshake.
    pub fn idle(&self) -> (r: bool)
        ensures
            r == (self is Disconnected || self is Aborted),
    {
        match self {
            ConnectionState::Disconnected => true,
            ConnectionState::Aborted { .. } => true,
            _ => false,
        }
    }
}

/// The address packets go to in state `s`, if any.
pub open spec fn spec_send_addr(s: ConnectionState) -> Option<PeerAddr> {
    match s {
        ConnectionState::Disconnected => None,
        ConnectionState::Aborted { .. } => None,
        ConnectionState::OutgoingConnectRequest { addr, .. } => Some(addr),
        ConnectionState::IncomingConnectRequest { addr, .. } => Some(addr),
        ConnectionState::Connected { addr, .. } => Some(addr),
    }
}

/// Whether taking in `data` in state `s` asks the caller whether to accept the request.
pub open spec fn asks_to_accept(s: ConnectionState, data: InsecureConnectionEstablishment) -> bool {
    (s is Disconnected || s is Aborted) && data is Connect
}

/// What the outcome of taking in a handshake message is: the connection is established
/// (`true`) or not yet, and the reply to send, if any.
pub type HandshakeStep = (bool, Option<InsecureConnectionEstablishment>);

/// Taking in the handshake message `data` from `remote` at `now` in state `s`: the state
/// afterwards and the outcome. `accept` is the caller's answer where a request has to be
/// accepted or refused, `fresh` the salt drawn for accepting it.
pub open spec fn spec_incoming(
    s: ConnectionState,
    remote: PeerAddr,
    data: InsecureConnectionEstablishment,
    accept: bool,
    fresh: u32,
    now: u64,
) -> (ConnectionState, Result<HandshakeStep, Error>) {
    match s {
        ConnectionState::Disconnected | ConnectionState::Aborted { .. } => match data {
            InsecureConnectionEstablishment::Connect { local_salt: remote_salt, .. } => {
                if accept {
                    (
                        ConnectionState::IncomingConnectRequest {
                            addr: remote,
                            instant: now,
                            salt: remote_salt ^ fresh,
                        },
                        Ok(
                            (
                                false,
                                Some(
                                    InsecureConnectionEstablishment::Challenge {
                                        local_salt: remote_salt,
                                        remote_salt: fresh,
                                    },
                                ),
                            ),
                        ),
                    )
                } else {
                    (s, Ok((false, None)))
                }
            },
            _ => (s, Err(Error::UnexpectedMessage)),
        },
        ConnectionState::OutgoingConnectRequest { addr, instant, salt, received_challenge } => {
            match data {
                InsecureConnectionEstablishment::Connect { .. } => (s, Ok((false, None))),
                InsecureConnectionEstablishment::Challenge { local_salt, remote_salt } => {
                    if addr == remote && !received_challenge && salt == local_salt {
                        (
                            ConnectionState::OutgoingConnectRequest {
                                addr,
                                instant,
                                salt: local_salt ^ remote_salt,
                                received_challenge: true,
                            },
                            Ok(
                                (
                                    false,
                                    Some(
                                        InsecureConnectionEstablishment::ChallengeResponse {
                                            salt: local_salt ^ remote_salt,
                                        },
                                    ),
                                ),
                            ),
                        )
                    } else {
                        (s, Err(Error::UnexpectedMessage))
                    }
                },
                InsecureConnectionEstablishment::ChallengeResponse { .. } => (
                    s,
                    Err(Error::UnexpectedMessage),
                ),
                InsecureConnectionEstablishment::ConnectionAccepted { salt: accepted } => {
                    if addr == remote && received_challenge && salt == accepted {
                        (
                            ConnectionState::Connected {
                                addr: remote,
                                connected_since: now,
                                info: UnprotectedWithSalt { salt: accepted },
                            },
                            Ok((true, None)),
                        )
                    } else {
                        (s, Err(Error::UnexpectedMessage))
                    }
                },
            }
        },
        ConnectionState::IncomingConnectRequest { addr, salt: ours, .. } => match data {
            InsecureConnectionEstablishment::Connect { .. } => (s, Ok((false, None))),
            InsecureConnectionEstablishment::ChallengeResponse { salt } => {
                if addr == remote && salt == ours {
                    (
                        ConnectionState::Connected {
                            addr: remote,
                            connected_since: now,
                            info: UnprotectedWithSalt { salt },
                        },
                        Ok(
                            (
                                true,
                                Some(InsecureConnectionEstablishment::ConnectionAccepted { salt }),
                            ),
                        ),
                    )
                } else {
                    (s, Err(Error::UnexpectedMessage))
                }
            },
            _ => (s, Err(Error::UnexpectedMessage)),
        },
        ConnectionState::Connected { .. } => match data {
            InsecureConnectionEstablishment::Connect { .. } => (s, Err(Error::AlreadyConnected)),
            _ => (s, Err(Error::UnexpectedMessage)),
        },
    }
}

/// Whether a data packet with salt `packet_salt` from `remote` belongs to the connection in
/// state `s`: `Ok` if it does; [`Error::PacketSessionMismatch`] if it comes from the peer with
/// another salt; [`Error::UnexpectedMessage`] if no data is expected from `remote`.
pub open spec fn spec_check_data(s: ConnectionState, remote: PeerAddr, packet_salt: u32) -> Result<
    (),
    Error,
> {
    match s {
        ConnectionState::Connected { addr, info, .. } => {
            if addr == remote {
                if info.salt == packet_salt {
                    Ok(())
                } else {
                    Err(Error::PacketSessionMismatch)
                }
            } else {
                Err(Error::UnexpectedMessage)
            }
        },
        ConnectionState::OutgoingConnectRequest { addr, salt, received_challenge, .. } => {
            if addr == remote && received_challenge {
                if salt == packet_salt {
                    Ok(())
                } else {
                    Err(Error::PacketSessionMismatch)
                }
            } else {
                Err(Error::UnexpectedMessage)
            }
        },
        _ => Err(Error::UnexpectedMessage),
    }
}

/// A salt drawn at random (`rand::random`). Trusted: nothing is claimed of the value.
#[verifier::external_body]
pub(crate) fn random_salt() -> (r: u32) {
    rand::random::<u32>()
}

/// A connection without encryption, protected only by the salt the handshake agrees on.
pub struct InsecureConnection {
    pub state: ConnectionState,
}

impl InsecureConnection {
    /// A connection in the disconnected state.
    pub fn new() -> (r: Self)
        ensures
            r.state is Disconnected,
    {
        InsecureConnection { state: ConnectionState::Disconnected }
    }

    /// The state of the connection.
    pub fn state(&self) -> (r: &ConnectionState)
        ensures
            *r == self.state,
    {
        &self.state
    }

    /// The address packets go to: the peer of the connection or of the handshake.
    pub fn send_addr(&self) -> (r: Option<PeerAddr>)
        ensures
            r == spec_send_addr(self.state),
    {
        match self.state {
            ConnectionState::Disconnected => None,
            ConnectionState::Aborted { .. } => None,
            ConnectionState::OutgoingConnectRequest { addr, .. } => Some(addr),
            ConnectionState::IncomingConnectRequest { addr, .. } => Some(addr),
            ConnectionState::Connected { addr, .. } => Some(addr),
        }
    }

    /// Start connecting to `addr` at `now` with the own salt `local_salt`: returns the request
    /// to send.
    pub fn connect_with_salt(&mut self, addr: PeerAddr, now: u64, local_salt: u32) -> (r:
        InsecureConnectionEstablishment)
        ensures
            final(self).state == (ConnectionState::OutgoingConnectRequest {
                addr,
                instant: now,
                salt: local_salt,
                received_challenge: false,
            }),
            (r matches InsecureConnectionEstablishment::Connect { local_salt: l, ddos_padding } && l
                == local_salt && forall|i: int| 0 <= i < 200 ==> ddos_padding@[i] == 0),
    {
        self.state = ConnectionState::OutgoingConnectRequest {
            addr,
            instant: now,
            salt: local_salt,
            received_challenge: false,
        };
        let padding: [u8; 200] = [0u8; 200];
        InsecureConnectionEstablishment::Connect { local_salt, ddos_padding: padding }
    }

    /// Start connecting to `addr` at `now` with a salt drawn at random: returns the request to
    /// send.
    pub fn connect(&mut self, addr: PeerAddr, now: u64) -> (r: InsecureConnectionEstablishment)
        ensures
            exists|salt: u32|
                {
                    &&& #[trigger] final(self).state == (ConnectionState::OutgoingConnectRequest {
                        addr,
                        instant: now,
                        salt,
                        received_challenge: false,
                    })
                    &&& (r matches InsecureConnectionEstablishment::Connect {
                        local_salt,
                        ddos_padding,
                    } && local_salt == salt && forall|i: int| 0 <= i < 200 ==> ddos_padding@[i] == 0)
                },
    {
        let local_salt = random_salt();
        self.connect_with_salt(addr, now, local_salt)
    }

    /// Take in the handshake message `data` from `remote_addr` at `now`, with `fresh_salt` as
    /// the own salt should a request be accepted; see [`spec_incoming`]. Where a request has to
    /// be accepted or refused, `connect_if` decides. On success the result tells whether the
    /// connection is established now and which reply to send.
    pub fn incoming_connect_with_salt<F: FnOnce(PeerAddr) -> bool>(
        &mut self,
        remote_addr: PeerAddr,
        data: InsecureConnectionEstablishment,
        connect_if: F,
        fresh_salt: u32,
        now: u64,
    ) -> (r: Result<HandshakeStep, Error>)
        requires
            asks_to_accept(old(self).state, data) ==> connect_if.requires((remote_addr,)),
        ensures
            exists|accept: bool|
                {
                    &&& asks_to_accept(old(self).state, data) ==> connect_if.ensures(
                        (remote_addr,),
                        accept,
                    )
                    &&& (final(self).state, r) == #[trigger] spec_incoming(
                        old(self).state,
                        remote_addr,
                        data,
                        accept,
                        fresh_salt,
                        now,
                    )
                },
    {
        match self.state {
            ConnectionState::Disconnected | ConnectionState::Aborted { .. } => {
                match data {
                    InsecureConnectionEstablishment::Connect { local_salt: remote_salt, .. } => {
                        let accept = connect_if(remote_addr);
                        if accept {
                            let salt = remote_salt ^ fresh_salt;
                            self.state = ConnectionState::IncomingConnectRequest {
                                addr: remote_addr,
                                instant: now,
                                salt,
                            };
                            let reply = InsecureConnectionEstablishment::Challenge {
                                local_salt: remote_salt,
                                remote_salt: fresh_salt,
                            };
                            let r = Ok((false, Some(reply)));
                            assert((self.state, r) == spec_incoming(
                                old(self).state,
                                remote_addr,
                                data,
                                accept,
                                fresh_salt,
                                now,
                            ));
                            r
                        } else {
                            let r = Ok((false, None));
                            assert((self.state, r) == spec_incoming(
                                old(self).state,
                                remote_addr,
                                data,
                                accept,
                                fresh_salt,
                                now,
                            ));
                            r
                        }
                    },
                    _ => {
                        let r = Err(Error::UnexpectedMessage);
                        assert((self.state, r) == spec_incoming(
                            old(self).state,
                            remote_addr,
                            data,
                            false,
                            fresh_salt,
                            now,
                        ));
                        r
                    },
                }
            },
            ConnectionState::OutgoingConnectRequest { addr, instant, salt, received_challenge } => {
                let r = match data {
                    InsecureConnectionEstablishment::Connect { .. } => Ok((false, None)),
                    InsecureConnectionEstablishment::Challenge { local_salt, remote_salt } => {
                        if addr == remote_addr && !received_challenge && salt == local_salt {
                            let agreed = local_salt ^ remote_salt;
                            self.state = ConnectionState::OutgoingConnectRequest {
                                addr,
                                instant,
                                salt: agreed,
                                received_challenge: true,
                            };
                            Ok(
                                (
                                    false,
                                    Some(
                                        InsecureConnectionEstablishment::ChallengeResponse {
                                            salt: agreed,
                                        },
                                    ),
                                ),
                            )
                        } else {
                            Err(Error::UnexpectedMessage)
                        }
                    },
                    InsecureConnectionEstablishment::ChallengeResponse { .. } => Err(
                        Error::UnexpectedMessage,
                    ),
                    InsecureConnectionEstablishment::ConnectionAccepted { salt: accepted } => {
                        if addr == remote_addr && received_challenge && salt == accepted {
                            self.state = ConnectionState::Connected {
                                addr: remote_addr,
                                connected_since: now,
                                info: UnprotectedWithSalt { salt: accepted },
                            };
                            Ok((true, None))
                        } else {
                            Err(Error::UnexpectedMessage)
                        }
                    },
                };
                assert((self.state, r) == spec_incoming(
                    old(self).state,
                    remote_addr,
                    data,
                    false,
                    fresh_salt,
                    now,
                ));
                r
            },
            ConnectionState::IncomingConnectRequest { addr, salt: ours, .. } => {
                let r = match data {
                    InsecureConnectionEstablishment::Connect { .. } => Ok((false, None)),
                    InsecureConnectionEstablishment::ChallengeResponse { salt } => {
                        if addr == remote_addr && salt == ours {
                            self.state = ConnectionState::Connected {
                                addr: remote_addr,
                                connected_since: now,
                                info: UnprotectedWithSalt { salt },
                            };
                            Ok(
                                (
                                    true,
                                    Some(
                                        InsecureConnectionEstablishment::ConnectionAccepted {
                                            salt,
                                        },
                                    ),
                                ),
                            )
                        } else {
                            Err(Error::UnexpectedMessage)
                        }
                    },
                    _ => Err(Error::UnexpectedMessage),
                };
                assert((self.state, r) == spec_incoming(
                    old(self).state,
                    remote_addr,
                    data,
                    false,
                    fresh_salt,
                    now,
                ));
                r
            },
            ConnectionState::Connected { .. } => {
                let r = match data {
                    InsecureConnectionEstablishment::Connect { .. } => Err(
                        Error::AlreadyConnected,
                    ),
                    _ => Err(Error::UnexpectedMessage),
                };
                assert((self.state, r) == spec_incoming(
                    old(self).state,
                    remote_addr,
                    data,
                    false,
                    fresh_salt,
                    now,
                ));
                r
            },
        }
    }

    /// Take in the handshake message `data` from `remote_addr` at `now`, as
    /// [`Self::incoming_connect_with_salt`] does with a salt drawn at random.
    pub fn incoming_connect<F: FnOnce(PeerAddr) -> bool>(
        &mut self,
        remote_addr: PeerAddr,
        data: InsecureConnectionEstablishment,
        connect_if: F,
        now: u64,
    ) -> (r: Result<HandshakeStep, Error>)
        requires
            asks_to_accept(old(self).state, data) ==> connect_if.requires((remote_addr,)),
        ensures
            exists|accept: bool, fresh: u32|
                {
                    &&& asks_to_accept(old(self).state, data) ==> connect_if.ensures(
                        (remote_addr,),
                        accept,
                    )
                    &&& (final(self).state, r) == #[trigger] spec_incoming(
                        old(self).state,
                        remote_addr,
                        data,
                        accept,
                        fresh,
                        now,
                    )
                },
    {
        let fresh = random_salt();
        self.incoming_connect_with_salt(remote_addr, data, connect_if, fresh, now)
    }

    /// Whether a data packet with salt `packet_salt` from `remote_addr` belongs to this
    /// connection; see [`spec_check_data`].
    pub fn check_data_packet(&self, remote_addr: PeerAddr, packet_salt: u32) -> (r: Result<
        (),
        Error,
    >)
        ensures
            r == spec_check_data(self.state, remote_addr, packet_salt),
    {
        match self.state {
            ConnectionState::Connected { addr, info, .. } => {
                if addr == remote_addr {
                    if info.salt == packet_salt {
                        Ok(())
                    } else {
                        Err(Error::PacketSessionMismatch)
                    }
                } else {
                    Err(Error::UnexpectedMessage)
                }
            },
            ConnectionState::OutgoingConnectRequest { addr, salt, received_challenge, .. } => {
                if addr == remote_addr && received_challenge {
                    if salt == packet_salt {
                        Ok(())
                    } else {
                        Err(Error::PacketSessionMismatch)
                    }
                } else {
                    Err(Error::UnexpectedMessage)
                }
            },
            _ => Err(Error::UnexpectedMessage),
        }
    }

    /// The salt data packets of this connection carry, if it is established.
    pub fn data_salt(&self) -> (r: Option<u32>)
        ensures
            r == match self.state {
                ConnectionState::Connected { info, .. } => Some(info.salt),
                _ => None,
            },
    {
        match self.state {
            ConnectionState::Connected { info, .. } => Some(info.salt),
            _ => None,
        }
    }
}

/// The handshake works: when `a` asks `b` for a connection with salt `sa` and `b` accepts with
/// salt `sb`, then after the challenge, its response and the acceptance both sides are
/// connected to each other with the same salt, `sa ^ sb`, and each accepts the other's data
/// packets.
pub proof fn law_handshake_connects(
    addr_a: PeerAddr,
    addr_b: PeerAddr,
    sa: u32,
    sb: u32,
    padding: [u8; 200],
    unused: u32,
    t0: u64,
    t1: u64,
    t2: u64,
    t3: u64,
    t4: u64,
)
    ensures
        ({
            let a1 = ConnectionState::OutgoingConnectRequest {
                addr: addr_b,
                instant: t0,
                salt: sa,
                received_challenge: false,
            };
            let request = InsecureConnectionEstablishment::Connect {
                local_salt: sa,
                ddos_padding: padding,
            };
            let (b1, r1) = spec_incoming(
                ConnectionState::Disconnected,
                addr_a,
                request,
                true,
                sb,
                t1,
            );
            let challenge = r1.unwrap().1.unwrap();
            let (a2, r2) = spec_incoming(a1, addr_b, challenge, false, unused, t2);
            let response = r2.unwrap().1.unwrap();
            let (b2, r3) = spec_incoming(b1, addr_a, response, false, unused, t3);
            let accepted = r3.unwrap().1.unwrap();
            let (a3, r4) = spec_incoming(a2, addr_b, accepted, false, unused, t4);
            &&& r1 is Ok && r2 is Ok && r3 is Ok && r4 is Ok
            &&& r3.unwrap().0 && r4.unwrap().0
            &&& b2 == (ConnectionState::Connected {
                addr: addr_a,
                connected_since: t3,
                info: UnprotectedWithSalt { salt: sa ^ sb },
            })
            &&& a3 == (ConnectionState::Connected {
                addr: addr_b,
                connected_since: t4,
                info: UnprotectedWithSalt { salt: sa ^ sb },
            })
            &&& spec_check_data(a3, addr_b, sa ^ sb) is Ok
            &&& spec_check_data(b2, addr_a, sa ^ sb) is Ok
            &&& spec_check_data(a2, addr_b, sa ^ sb) is Ok
            &&& forall|x: u32| x != sa ^ sb ==> spec_check_data(a3, addr_b, x) == Err::<(), Error>(
                Error::PacketSessionMismatch,
            ) && spec_check_data(b2, addr_a, x) == Err::<(), Error>(Error::PacketSessionMismatch)
        }),
{
}

/// Data of the connection is accepted as soon as the challenge arrived. When `a` asked `b`
/// for a connection with salt `sa` and takes in `b`'s challenge with salt `sb`, a data packet
/// from `b` with the agreed salt `sa ^ sb` is accepted, even before `b`'s acceptance arrives
/// (`b` is connected once it has the response and may already send); one from `b` with
/// another salt belongs to another session; and one from anybody else is unexpected. Before the
/// challenge, no data is accepted.
pub proof fn law_data_accepted_after_challenge(
    addr_b: PeerAddr,
    sa: u32,
    sb: u32,
    t0: u64,
    t2: u64,
    unused: u32,
    remote: PeerAddr,
    packet_salt: u32,
)
    ensures
        ({
            let a1 = ConnectionState::OutgoingConnectRequest {
                addr: addr_b,
                instant: t0,
                salt: sa,
                received_challenge: false,
            };
            let challenge = InsecureConnectionEstablishment::Challenge {
                local_salt: sa,
                remote_salt: sb,
            };
            let (a2, r2) = spec_incoming(a1, addr_b, challenge, false, unused, t2);
            &&& r2 is Ok
            &&& (remote == addr_b && packet_salt == sa ^ sb) ==> spec_check_data(
                a2,
                remote,
                packet_salt,
            ) == Ok::<(), Error>(())
            &&& (remote == addr_b && packet_salt != sa ^ sb) ==> spec_check_data(
                a2,
                remote,
                packet_salt,
            ) == Err::<(), Error>(Error::PacketSessionMismatch)
            &&& remote != addr_b ==> spec_check_data(a2, remote, packet_salt) == Err::<(), Error>(
                Error::UnexpectedMessage,
            )
            &&& spec_check_data(a1, remote, packet_salt) == Err::<(), Error>(
                Error::UnexpectedMessage,
            )
        }),
{
}

/// Data is accepted only from the peer and with one salt. In any state, a data packet accepted
/// from `remote` comes from the address the connection sends to; at most one salt is accepted
/// from `remote`; and a packet is refused as belonging to another session only where `remote`
/// is the peer whose data with the agreed salt is accepted. Without a peer, or while waiting
/// for the challenge, nothing is accepted.
pub proof fn law_data_only_from_peer(s: ConnectionState, remote: PeerAddr, x: u32, y: u32)
    ensures
        spec_check_data(s, remote, x) is Ok ==> spec_send_addr(s) == Some(remote),
        spec_check_data(s, remote, x) is Ok && spec_check_data(s, remote, y) is Ok ==> x == y,
        spec_check_data(s, remote, x) == Err::<(), Error>(Error::PacketSessionMismatch) ==> exists|
            z: u32,
        | (#[trigger] spec_check_data(s, remote, z)) is Ok,
        spec_check_data(s, remote, x) is Err ==> spec_check_data(s, remote, x) == Err::<(), Error>(
            Error::PacketSessionMismatch,
        ) || spec_check_data(s, remote, x) == Err::<(), Error>(Error::UnexpectedMessage),
        (s is Disconnected || s is Aborted || s is IncomingConnectRequest || (
        s is OutgoingConnectRequest && !s->received_challenge)) ==> spec_check_data(
            s,
            remote,
            x,
        ) == Err::<(), Error>(Error::UnexpectedMessage),
{
    match s {
        ConnectionState::Connected { addr, info, .. } => {
            if addr == remote {
                assert(spec_check_data(s, remote, info.salt) is Ok);
            }
        },
        ConnectionState::OutgoingConnectRequest { addr, salt, received_challenge, .. } => {
            if addr == remote && received_challenge {
                assert(spec_check_data(s, remote, salt) is Ok);
            }
        },
        _ => {},
    }
}

} // verus!
