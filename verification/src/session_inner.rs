//! The state of one side of a session: the connection, its handshake, and the reliable
//! ordered messages sent over it.
//!
//! The socket is not part of this state: a caller hands each received datagram to
//! [`InnerCommunicator::receive_datagram`] and sends the frames that
//! [`InnerCommunicator::send_packets`] produces to the address it names.
use vstd::prelude::*;
use vstd::bytes::*;
use crate::byte_repr::ByteRepr;
use crate::communicator::{FixedResend, ResendContext, free_run, packs_fit, spec_too_old};
use crate::connection::{
    ConnectionState,
    InsecureConnection,
    InsecureConnectionEstablishment,
    PeerAddr,
    asks_to_accept,
    random_salt,
    spec_incoming,
    spec_send_addr,
};
use crate::context::Priority;
use crate::error::Error;
use crate::reliable_ordered::{
    MessageState,
    MessageTrace,
    PendingFrame,
    ReliableOrdered,
    ReliablePacketState,
    acked_traces,
    finished_views,
    ordered_flushed,
    spec_resend_frames,
};
use crate::ring_buffer::{keep_window, wadd, wsub};
use crate::unreliable::Unreliable;
use crate::session::{
    Packet,
    PacketAck,
    PacketView,
    PartialPacketAck,
    ack_of_partial,
    session_salt,
    spec_packet_bytes,
    spec_read_packet,
};
use crate::packet::{acked_indices, ack_bits_of};
use crate::frame::spec_frame;

verus! {

/// The state of one side of a session.
pub struct InnerCommunicator<S, R> {
    /// The connection and its handshake.
    pub connection: InsecureConnection,
    /// How unacknowledged packets are resent.
    pub resend_handler: FixedResend,
    /// The unreliable messages.
    pub unreliable: Unreliable<S>,
    /// The reliable ordered messages.
    pub reliable_ordered: ReliableOrdered<S, R>,
    /// Set when a packet was received more than once, meaning that the other side may be
    /// waiting for an acknowledgement.
    pub received_packet_duplicate: bool,
    /// When the last packet was received.
    pub last_seen: u64,
    /// When the last packet was sent.
    pub last_send: u64,
    /// The protocol version, which seeds the CRC of every frame.
    pub protocol_version: u32,
}

impl<S, R> InnerCommunicator<S, R> {
    /// The invariant: that of the reliable ordered messages.
    pub open spec fn wf(&self) -> bool {
        self.reliable_ordered.wf()
    }

    /// A disconnected side for `protocol_version`, created at `now_ms`.
    pub fn new(protocol_version: u32, now_ms: u64) -> (r: Self)
        ensures
            r.wf(),
            r.connection.state is Disconnected,
            !r.unreliable.has_work_spec(),
            r.reliable_ordered.send_queue@.len() == 0,
            r.reliable_ordered.recv_queue@.len() == 0,
            !r.received_packet_duplicate,
            r.last_seen == now_ms,
            r.last_send == now_ms,
            r.protocol_version == protocol_version,
    {
        InnerCommunicator {
            connection: InsecureConnection::new(),
            resend_handler: FixedResend::new(),
            unreliable: Unreliable::new(),
            reliable_ordered: ReliableOrdered::new(),
            received_packet_duplicate: false,
            last_seen: now_ms,
            last_send: now_ms,
            protocol_version,
        }
    }

    /// The acknowledgement that packets of this side carry: nothing for reliable unordered
    /// packets, the received reliable ordered packets as the newest id and one bit for each of
    /// the 32 ids up to it.
    pub fn create_ack(&self) -> (r: PacketAck)
        requires
            self.wf(),
        ensures
            r.reliable_newest_received == 0,
            r.reliable_ack_bits == 0,
            r.ordered_newest_received == self.reliable_ordered.recv_buffer.newest(),
            ack_bits_of(
                r.ordered_ack_bits,
                self.reliable_ordered.recv_buffer@,
                self.reliable_ordered.recv_buffer.newest(),
            ),
    {
        let (ordered_newest_received, ordered_ack_bits) = self.reliable_ordered.get_ack();
        PacketAck {
            reliable_newest_received: 0,
            reliable_ack_bits: 0,
            ordered_newest_received,
            ordered_ack_bits,
        }
    }

    /// Drop the pending reliable ordered packets that `ack`, received at `now_ms`,
    /// acknowledges; see [`Self::acked`].
    pub fn acknowledge(&mut self, ack: PacketAck, now_ms: u64)
        requires
            old(self).wf(),
        ensures
            final(self).wf(),
            final(self).acked(old(self), ack, now_ms),
    {
        self.reliable_ordered.acknowledge(ack.ordered_newest_received, ack.ordered_ack_bits, now_ms);
    }

    /// Queue `message` to be sent reliably and in order, with `priority`.
    pub fn write_ordered(&mut self, message: S, priority: Priority)
        requires
            old(self).wf(),
        ensures
            final(self).wf(),
            final(self).reliable_ordered.send_queue@ == old(
                self,
            ).reliable_ordered.send_queue@.push(message),
            final(self).reliable_ordered.send_priorities@ == old(
                self,
            ).reliable_ordered.send_priorities@.push(priority),
            final(self).reliable_ordered.send_tickets@ == old(
                self,
            ).reliable_ordered.send_tickets@.push(None),
            final(self).reliable_ordered.pending == old(self).reliable_ordered.pending,
            final(self).connection == old(self).connection,
    {
        self.reliable_ordered.queue_message(message, priority);
    }

    /// Queue `message` to be sent reliably and in order, with `priority` and a trace; see
    /// [`ReliableOrdered::queue_message_with_trace`].
    pub fn write_ordered_with_trace(&mut self, message: S, priority: Priority) -> (r: Option<
        MessageTrace,
    >)
        requires
            old(self).wf(),
        ensures
            final(self).wf(),
            old(self).reliable_ordered.next_ticket == u64::MAX ==> r is None && *final(self)
                == *old(self),
            old(self).reliable_ordered.next_ticket < u64::MAX ==> {
                &&& r == Some(MessageTrace { ticket: old(self).reliable_ordered.next_ticket })
                &&& final(self).reliable_ordered.send_queue@ == old(
                    self,
                ).reliable_ordered.send_queue@.push(message)
                &&& final(self).reliable_ordered.send_priorities@ == old(
                    self,
                ).reliable_ordered.send_priorities@.push(priority)
                &&& final(self).reliable_ordered.send_tickets@ == old(
                    self,
                ).reliable_ordered.send_tickets@.push(Some(old(self).reliable_ordered.next_ticket))
                &&& final(self).reliable_ordered.next_ticket == old(self).reliable_ordered.next_ticket + 1
                &&& final(self).reliable_ordered.pending == old(self).reliable_ordered.pending
            },
            final(self).connection == old(self).connection,
    {
        self.reliable_ordered.queue_message_with_trace(message, priority)
    }

    /// What became of the message traced by `trace`; see
    /// [`ReliableOrdered::spec_message_state`].
    pub fn message_state(&self, trace: &MessageTrace) -> (r: Option<MessageState>)
        requires
            self.wf(),
        ensures
            r == self.reliable_ordered.spec_message_state(trace.ticket),
    {
        self.reliable_ordered.message_state(trace)
    }

    /// The next reliable ordered message received, if any.
    pub fn read_ordered(&mut self) -> (r: Option<R>)
        ensures
            old(self).reliable_ordered.recv_queue@.len() == 0 ==> r is None,
            old(self).reliable_ordered.recv_queue@.len() > 0 ==> r == Some(
                old(self).reliable_ordered.recv_queue@[0],
            ) && final(self).reliable_ordered.recv_queue@ == old(
                self,
            ).reliable_ordered.recv_queue@.drop_first(),
            final(self).connection == old(self).connection,
    {
        self.reliable_ordered.next()
    }

    /// Whether messages are queued or packets wait for their acknowledgement.
    pub fn has_work(&self) -> (r: bool)
        requires
            self.wf(),
        ensures
            r == (self.unreliable.has_work_spec() || !(self.reliable_ordered.send_queue@.len()
                == 0 && self.reliable_ordered.pending@.is_empty())),
    {
        self.unreliable.has_work() || self.reliable_ordered.has_work()
    }

    /// Queue `message` to be sent unreliably, with `priority`.
    pub fn write(&mut self, message: S, priority: Priority)
        ensures
            final(self).unreliable.queued(&old(self).unreliable, message, priority),
            final(self).reliable_ordered == old(self).reliable_ordered,
            final(self).connection == old(self).connection,
    {
        self.unreliable.queue_message(message, priority);
    }

    /// What sending the due packets at `now` did, turning `o` into `self` with result `r`;
    /// see [`Self::send_packets`]. Without a peer nothing happens; otherwise the frames of the
    /// pending reliable ordered packets that are due go to the peer, and the time of the last
    /// send is `now` if there was any.
    pub open spec fn packets_sent(
        &self,
        o: &Self,
        now: u64,
        r: Option<(PeerAddr, Vec<Vec<u8>>)>,
    ) -> bool {
        match spec_send_addr(o.connection.state) {
            None => r is None && *self == *o,
            Some(addr) => {
                let ro = o.reliable_ordered;
                let res = spec_resend_frames(
                    o.resend_handler,
                    ro.pending@,
                    wsub(ro.pending.newest(), 31),
                    32,
                    now,
                );
                &&& r matches Some((a, frames)) && a == addr
                    && crate::communicator::frame_views(frames@) == res.0
                &&& self.reliable_ordered.pending@ == res.1
                &&& finished_views(self.reliable_ordered.finished@) == finished_views(
                    ro.finished@,
                ) + res.2
                &&& self.reliable_ordered.pending.newest() == ro.pending.newest()
                &&& self.reliable_ordered.send_queue == ro.send_queue
                &&& self.reliable_ordered.send_priorities == ro.send_priorities
                &&& self.reliable_ordered.send_tickets == ro.send_tickets
                &&& self.reliable_ordered.next_ticket == ro.next_ticket
                &&& self.reliable_ordered.recv_queue == ro.recv_queue
                &&& self.reliable_ordered.recv_buffer == ro.recv_buffer
                &&& self.reliable_ordered.read_packet_head == ro.read_packet_head
                &&& self.last_send == (if res.0.len() > 0 {
                    now
                } else {
                    o.last_send
                })
                &&& self.connection == o.connection
                &&& self.received_packet_duplicate == o.received_packet_duplicate
                &&& self.resend_handler == o.resend_handler
                &&& self.unreliable == o.unreliable
                &&& self.last_seen == o.last_seen
                &&& self.protocol_version == o.protocol_version
            },
        }
    }

    /// The frames to send at `now_ms` and the address to send them to: those of the pending
    /// reliable ordered packets that are due. `None` while there is no peer. See
    /// [`Self::packets_sent`].
    pub fn send_packets(&mut self, now_ms: u64) -> (r: Option<(PeerAddr, Vec<Vec<u8>>)>)
        requires
            old(self).wf(),
        ensures
            final(self).wf(),
            final(self).packets_sent(old(self), now_ms, r),
    {
        let addr = match self.connection.send_addr() {
            None => {
                return None;
            },
            Some(addr) => addr,
        };
        let frames = self.reliable_ordered.send(&self.resend_handler, now_ms);
        if frames.len() > 0 {
            self.last_send = now_ms;
        }
        proof {
            assert(frames@.len() == crate::communicator::frame_views(frames@).len());
        }
        Some((addr, frames))
    }
}

impl<S: ByteRepr, R> InnerCommunicator<S, R> {
    /// What putting the queued messages into packets did, turning `o` into `self`; see
    /// [`Self::flush_messages`]. The packets carry the acknowledgement of the received
    /// reliable ordered packets; see [`ordered_flushed`].
    pub open spec fn messages_flushed(&self, o: &Self) -> bool {
        &&& self.connection == o.connection
        &&& self.received_packet_duplicate == o.received_packet_duplicate
        &&& self.resend_handler == o.resend_handler
        &&& self.unreliable == o.unreliable
        &&& self.last_seen == o.last_seen
        &&& self.last_send == o.last_send
        &&& self.protocol_version == o.protocol_version
        &&& exists|ack: PacketAck|
            {
                &&& ack.reliable_newest_received == 0
                &&& ack.reliable_ack_bits == 0
                &&& ack.ordered_newest_received == o.reliable_ordered.recv_buffer.newest()
                &&& ack_bits_of(
                    ack.ordered_ack_bits,
                    o.reliable_ordered.recv_buffer@,
                    o.reliable_ordered.recv_buffer.newest(),
                )
                &&& #[trigger] ordered_flushed(
                    self.reliable_ordered,
                    o.reliable_ordered,
                    ack,
                    session_salt(o.connection.state),
                    o.protocol_version,
                )
            }
    }

    /// Put the queued reliable ordered messages into packets that carry this side's
    /// acknowledgement; see [`Self::messages_flushed`]. Anything queued needs an established
    /// connection.
    pub fn flush_messages(&mut self) -> (r: Result<(), Error>)
        requires
            old(self).wf(),
            packs_fit(
                old(self).reliable_ordered.send_queue@,
                free_run(
                    old(self).reliable_ordered.pending@,
                    wsub(old(self).reliable_ordered.pending.newest(), 31),
                    32,
                ),
            ),
            old(self).reliable_ordered.send_queue@.len() > 0 ==> old(
                self,
            ).connection.state is Connected,
        ensures
            final(self).wf(),
            r is Ok,
            final(self).messages_flushed(old(self)),
    {
        let ack = self.create_ack();
        let r = self.reliable_ordered.flush_messages(
            &mut self.connection,
            &self.resend_handler,
            ack,
            self.protocol_version,
        );
        assert(ordered_flushed(
            self.reliable_ordered,
            old(self).reliable_ordered,
            ack,
            session_salt(old(self).connection.state),
            old(self).protocol_version,
        ));
        r
    }

    /// One round of sending at `now_ms`: the duplicate flag is cleared, the queued messages are
    /// put into packets, and the frames that are due go to the peer; see
    /// [`Self::messages_flushed`] and [`Self::packets_sent`]. Anything queued needs an
    /// established connection.
    pub fn send(&mut self, now_ms: u64) -> (r: Option<(PeerAddr, Vec<Vec<u8>>)>)
        requires
            old(self).wf(),
            packs_fit(
                old(self).reliable_ordered.send_queue@,
                free_run(
                    old(self).reliable_ordered.pending@,
                    wsub(old(self).reliable_ordered.pending.newest(), 31),
                    32,
                ),
            ),
            old(self).reliable_ordered.send_queue@.len() > 0 ==> old(
                self,
            ).connection.state is Connected,
        ensures
            final(self).wf(),
            exists|mid: Self|
                {
                    &&& mid.messages_flushed(
                        &(InnerCommunicator { received_packet_duplicate: false, ..*old(self) }),
                    )
                    &&& #[trigger] final(self).packets_sent(&mid, now_ms, r)
                },
    {
        self.received_packet_duplicate = false;
        let ghost cleared = *self;
        let _ = self.flush_messages();
        let ghost mid = *self;
        assert(mid.messages_flushed(&cleared));
        self.send_packets(now_ms)
    }
}

impl<S, R: ByteRepr> InnerCommunicator<S, R> {
    /// What sending the handshake message `con_data` did, turning `o` into `self` with result
    /// `r`; see [`Self::send_handshake`].
    pub open spec fn handshake_sent(
        &self,
        o: &Self,
        con_data: InsecureConnectionEstablishment,
        r: Result<(), Error>,
    ) -> bool {
        let ro = o.reliable_ordered;
        let seq = wadd(ro.pending.newest(), 1);
        if ro.pending@.contains_key(wsub(ro.pending.newest(), 31)) {
            r == Err::<(), Error>(Error::PacketSendBufferFull) && *self == *o
        } else {
            &&& r is Ok
            &&& self.connection == o.connection
            &&& self.received_packet_duplicate == o.received_packet_duplicate
            &&& self.resend_handler == o.resend_handler
            &&& self.unreliable == o.unreliable
            &&& self.last_seen == o.last_seen
            &&& self.last_send == o.last_send
            &&& self.protocol_version == o.protocol_version
            &&& self.reliable_ordered.send_queue == ro.send_queue
            &&& self.reliable_ordered.send_priorities == ro.send_priorities
            &&& self.reliable_ordered.send_tickets == ro.send_tickets
            &&& self.reliable_ordered.next_ticket == ro.next_ticket
            &&& self.reliable_ordered.recv_queue == ro.recv_queue
            &&& self.reliable_ordered.recv_buffer == ro.recv_buffer
            &&& self.reliable_ordered.read_packet_head == ro.read_packet_head
            &&& self.reliable_ordered.finished == ro.finished
            &&& self.reliable_ordered.pending.newest() == seq
            &&& exists|ack: PartialPacketAck, pf: PendingFrame|
                {
                    &&& ack.newest_received == ro.recv_buffer.newest()
                    &&& ack_bits_of(ack.ack_bits, ro.recv_buffer@, ro.recv_buffer.newest())
                    &&& pf.priority == Priority::High
                    &&& pf.context == (ResendContext { last_send_ms: None, times_sent: 0 })
                    &&& pf.state == ReliablePacketState::Constructed
                    &&& pf.tickets@.len() == 0
                    &&& pf.frame@ == spec_frame(
                        o.protocol_version,
                        spec_packet_bytes::<R>(
                            PacketView::Connection(seq, ack_of_partial(ack), con_data),
                            0,
                        ),
                    )
                    &&& #[trigger] self.reliable_ordered.pending@ == keep_window(
                        ro.pending@,
                        seq,
                        32,
                    ).insert(seq, pf)
                }
        }
    }

    /// Send the handshake message `con_data` reliably and in order, with high priority: it
    /// becomes the next pending packet, framed with the acknowledgement of the received
    /// ordered packets. [`Error::PacketSendBufferFull`] if that would drop a pending packet.
    pub fn send_handshake(&mut self, con_data: InsecureConnectionEstablishment) -> (r: Result<
        (),
        Error,
    >)
        requires
            old(self).wf(),
        ensures
            final(self).wf(),
            final(self).handshake_sent(old(self), con_data, r),
    {
        let (sequence_id, partial_ack) = match self.reliable_ordered.write_packet() {
            Ok(x) => x,
            Err(e) => {
                return Err(e);
            },
        };
        let ack = PacketAck::from_reliable_ordered_ack(partial_ack);
        let packet = Packet::<R>::Connection { sequence_id, ack, con_data };
        proof {
            lemma_auto_spec_u16_to_from_le_bytes();
            lemma_auto_spec_u32_to_from_le_bytes();
        }
        let len = 4 + 15 + con_data.byte_len();
        let mut buffer: Vec<u8> = vec![0u8; len];
        let w = self.connection.write_packet(self.protocol_version, buffer.as_mut_slice(), packet);
        assert(w is Ok);
        assert(buffer@ =~= spec_frame(
            self.protocol_version,
            spec_packet_bytes::<R>(PacketView::Connection(sequence_id, ack, con_data), 0),
        ));
        let ghost frame = buffer;
        self.reliable_ordered.commit_packet(buffer, Priority::High, &self.resend_handler);
        proof {
            let pf = self.reliable_ordered.pending@[sequence_id];
            assert(pf.frame == frame);
            assert(self.reliable_ordered.pending@ == keep_window(
                old(self).reliable_ordered.pending@,
                sequence_id,
                32,
            ).insert(sequence_id, pf));
        }
        Ok(())
    }
}


impl<S, R> InnerCommunicator<S, R> {
    /// `self` with the connection in `state`.
    pub open spec fn with_state(self, state: ConnectionState) -> Self {
        InnerCommunicator { connection: InsecureConnection { state }, ..self }
    }

    /// `self` is `o` with the pending reliable ordered packets that `ack`, received at `now`,
    /// acknowledges dropped, and the traced ones among them finished; see
    /// [`Self::acknowledge`].
    pub open spec fn acked(&self, o: &Self, ack: PacketAck, now: u64) -> bool {
        &&& self.reliable_ordered.pending.newest() == o.reliable_ordered.pending.newest()
        &&& self.reliable_ordered.pending@ == o.reliable_ordered.pending@.remove_keys(
            acked_indices(ack.ordered_newest_received, ack.ordered_ack_bits),
        )
        &&& finished_views(self.reliable_ordered.finished@) == finished_views(
            o.reliable_ordered.finished@,
        ) + acked_traces(
            o.reliable_ordered.pending@,
            ack.ordered_newest_received,
            ack.ordered_ack_bits,
            32,
            now,
        )
        &&& self.reliable_ordered.send_queue == o.reliable_ordered.send_queue
        &&& self.reliable_ordered.send_priorities == o.reliable_ordered.send_priorities
        &&& self.reliable_ordered.send_tickets == o.reliable_ordered.send_tickets
        &&& self.reliable_ordered.next_ticket == o.reliable_ordered.next_ticket
        &&& self.reliable_ordered.recv_queue == o.reliable_ordered.recv_queue
        &&& self.reliable_ordered.recv_buffer == o.reliable_ordered.recv_buffer
        &&& self.reliable_ordered.read_packet_head == o.reliable_ordered.read_packet_head
        &&& self.connection == o.connection
        &&& self.received_packet_duplicate == o.received_packet_duplicate
        &&& self.resend_handler == o.resend_handler
        &&& self.unreliable == o.unreliable
        &&& self.last_seen == o.last_seen
        &&& self.last_send == o.last_send
        &&& self.protocol_version == o.protocol_version
    }
}

impl<S, R: ByteRepr> InnerCommunicator<S, R> {
    /// What taking in the datagram `bytes` from `remote` at `now` did, turning `o` into `self`
    /// with result `r`, with `fresh` as the salt for accepting a request:
    /// - a datagram that is not a packet of the session gives its error and changes nothing;
    /// - a data packet is not handled yet: `None`, and nothing changes;
    /// - a handshake packet is a reliable ordered packet: one received before only sets the
    ///   duplicate flag, one too old is refused; otherwise it is recorded as received, its
    ///   message is taken in by the connection (every request is accepted), the reply, if any,
    ///   is sent, and the pending packets its acknowledgement names are dropped.
    pub open spec fn datagram_received(
        &self,
        o: &Self,
        remote: PeerAddr,
        bytes: Seq<u8>,
        fresh: u32,
        now: u64,
        r: Option<Result<(), Error>>,
    ) -> bool {
        match spec_read_packet::<R>(o.connection.state, o.protocol_version, remote, bytes) {
            None => r is None && *self == *o,
            Some(Err(e)) => r == Some(Err::<(), Error>(e)) && *self == *o,
            Some(Ok(PacketView::Data(_, _, _))) => r is None && *self == *o,
            Some(Ok(PacketView::Connection(seq, ack, con))) => {
                let ro = o.reliable_ordered;
                let newest = ro.recv_buffer.newest();
                if ro.recv_buffer@.contains_key(seq) {
                    &&& r == Some(Ok::<(), Error>(()))
                    &&& *self == (InnerCommunicator { received_packet_duplicate: true, ..*o })
                } else if spec_too_old(newest, seq) {
                    &&& r == Some(
                        Err::<(), Error>(Error::PacketTooOld { sequence_id: seq, newest_id: newest }),
                    )
                    &&& *self == *o
                } else {
                    let step = spec_incoming(o.connection.state, remote, con, true, fresh, now);
                    exists|c1: Self, v: Vec<R>|
                        {
                            &&& v@.len() == 0
                            &&& #[trigger] c1.reliable_ordered.packet_read(
                                &ro,
                                seq,
                                v,
                                Ok::<bool, Error>(false),
                            )
                            &&& c1 == (InnerCommunicator {
                                reliable_ordered: c1.reliable_ordered,
                                connection: InsecureConnection { state: step.0 },
                                ..*o
                            })
                            &&& match step.1 {
                                Err(e) => r == Some(Err::<(), Error>(e)) && *self == c1,
                                Ok((_, None)) => r == Some(Ok::<(), Error>(())) && self.acked(
                                    &c1,
                                    ack,
                                    now,
                                ),
                                Ok((_, Some(reply))) => exists|c2: Self, hr: Result<(), Error>|
                                    {
                                        &&& #[trigger] c2.handshake_sent(&c1, reply, hr)
                                        &&& hr is Err ==> r == Some(hr) && *self == c2
                                        &&& hr is Ok ==> r == Some(Ok::<(), Error>(()))
                                            && self.acked(&c2, ack, now)
                                    },
                            }
                        }
                }
            },
        }
    }

    /// Take in the datagram `bytes` received from `remote` at `now_ms`, with `fresh_salt` as
    /// the own salt should a connection request be accepted; see [`Self::datagram_received`].
    pub fn receive_datagram_with_salt(
        &mut self,
        remote: PeerAddr,
        bytes: &[u8],
        fresh_salt: u32,
        now_ms: u64,
    ) -> (r: Option<Result<(), Error>>)
        requires
            old(self).wf(),
        ensures
            final(self).wf(),
            final(self).datagram_received(old(self), remote, bytes@, fresh_salt, now_ms, r),
    {
        match self.connection.read_packet::<R>(self.protocol_version, remote, bytes) {
            None => None,
            Some(Err(e)) => Some(Err(e)),
            Some(Ok(Packet::Data { .. })) => None,
            Some(Ok(Packet::Connection { sequence_id, ack, con_data })) => {
                let v: Vec<R> = Vec::new();
                let ghost vg = v;
                let read = self.reliable_ordered.read_packet(sequence_id, v);
                match read {
                    Ok(true) => {
                        self.received_packet_duplicate = true;
                        Some(Ok(()))
                    },
                    Err(e) => Some(Err(e)),
                    Ok(false) => {
                        let ghost s0 = self.connection.state;
                        let accept_all = |_a: PeerAddr| -> (b: bool)
                            ensures
                                b,
                            { true };
                        let res = self.connection.incoming_connect_with_salt(
                            remote,
                            con_data,
                            accept_all,
                            fresh_salt,
                            now_ms,
                        );
                        proof {
                            let accept = choose|accept: bool|
                                {
                                    &&& asks_to_accept(s0, con_data) ==> accept_all.ensures(
                                        (remote,),
                                        accept,
                                    )
                                    &&& (self.connection.state, res) == #[trigger] spec_incoming(
                                        s0,
                                        remote,
                                        con_data,
                                        accept,
                                        fresh_salt,
                                        now_ms,
                                    )
                                };
                            assert(spec_incoming(s0, remote, con_data, accept, fresh_salt, now_ms)
                                == spec_incoming(s0, remote, con_data, true, fresh_salt, now_ms));
                        }
                        let ghost c1 = *self;
                        let ghost step = spec_incoming(
                            old(self).connection.state,
                            remote,
                            con_data,
                            true,
                            fresh_salt,
                            now_ms,
                        );
                        assert(s0 == old(self).connection.state);
                        assert(self.connection.state == step.0);
                        assert(res == step.1);
                        assert(c1.reliable_ordered.packet_read(
                            &old(self).reliable_ordered,
                            sequence_id,
                            vg,
                            Ok::<bool, Error>(false),
                        ));
                        assert(c1 == (InnerCommunicator {
                            reliable_ordered: c1.reliable_ordered,
                            connection: InsecureConnection { state: step.0 },
                            ..*old(self)
                        }));
                        match res {
                            Err(e) => Some(Err(e)),
                            Ok((_, None)) => {
                                self.acknowledge(ack, now_ms);
                                Some(Ok(()))
                            },
                            Ok((_, Some(reply))) => {
                                let hr = self.send_handshake(reply);
                                let ghost c2 = *self;
                                assert(c2.handshake_sent(&c1, reply, hr));
                                match hr {
                                    Err(e) => Some(Err(e)),
                                    Ok(()) => {
                                        self.acknowledge(ack, now_ms);
                                        Some(Ok(()))
                                    },
                                }
                            },
                        }
                    },
                }
            },
        }
    }
}

impl<S, R: ByteRepr> InnerCommunicator<S, R> {
    /// Start connecting to `addr` at `now_ms` with the own salt `local_salt`: the connection
    /// waits for the challenge, and the request, with a zeroed padding, is sent as a handshake
    /// message; see [`Self::handshake_sent`].
    pub fn connect_with_salt(&mut self, addr: PeerAddr, now_ms: u64, local_salt: u32) -> (r:
        Result<(), Error>)
        requires
            old(self).wf(),
        ensures
            final(self).wf(),
            exists|request: InsecureConnectionEstablishment|
                {
                    &&& request matches InsecureConnectionEstablishment::Connect {
                        local_salt: l,
                        ddos_padding,
                    } && l == local_salt && forall|i: int| 0 <= i < 200 ==> ddos_padding@[i] == 0
                    &&& #[trigger] final(self).handshake_sent(
                        &old(self).with_state(
                            (ConnectionState::OutgoingConnectRequest {
                                addr,
                                instant: now_ms,
                                salt: local_salt,
                                received_challenge: false,
                            }),
                        ),
                        request,
                        r,
                    )
                },
    {
        let request = self.connection.connect_with_salt(addr, now_ms, local_salt);
        self.send_handshake(request)
    }

    /// Start connecting to `addr` at `now_ms` with a salt drawn at random, as
    /// [`Self::connect_with_salt`] does.
    pub fn connect(&mut self, addr: PeerAddr, now_ms: u64) -> (r: Result<(), Error>)
        requires
            old(self).wf(),
        ensures
            final(self).wf(),
            exists|salt: u32, request: InsecureConnectionEstablishment|
                {
                    &&& request matches InsecureConnectionEstablishment::Connect {
                        local_salt: l,
                        ddos_padding,
                    } && l == salt && forall|i: int| 0 <= i < 200 ==> ddos_padding@[i] == 0
                    &&& #[trigger] final(self).handshake_sent(
                        &old(self).with_state(
                            (ConnectionState::OutgoingConnectRequest {
                                addr,
                                instant: now_ms,
                                salt,
                                received_challenge: false,
                            }),
                        ),
                        request,
                        r,
                    )
                },
    {
        let request = self.connection.connect(addr, now_ms);
        let ghost c1 = *self;
        let ghost salt = choose|salt: u32|
            {
                &&& #[trigger] c1.connection.state == (ConnectionState::OutgoingConnectRequest {
                    addr,
                    instant: now_ms,
                    salt,
                    received_challenge: false,
                })
                &&& request matches InsecureConnectionEstablishment::Connect { local_salt, .. }
                    && local_salt == salt
            };
        assert(c1 == old(self).with_state(
            (ConnectionState::OutgoingConnectRequest {
                addr,
                instant: now_ms,
                salt,
                received_challenge: false,
            }),
        ));
        let r = self.send_handshake(request);
        assert(self.handshake_sent(&c1, request, r));
        r
    }

    /// Take in the datagram `bytes` received from `remote` at `now_ms`, as
    /// [`Self::receive_datagram_with_salt`] does with a salt drawn at random.
    pub fn receive_datagram(&mut self, remote: PeerAddr, bytes: &[u8], now_ms: u64) -> (r: Option<
        Result<(), Error>,
    >)
        requires
            old(self).wf(),
        ensures
            final(self).wf(),
            exists|fresh: u32|
                #[trigger] final(self).datagram_received(
                    old(self),
                    remote,
                    bytes@,
                    fresh,
                    now_ms,
                    r,
                ),
    {
        let fresh = random_salt();
        self.receive_datagram_with_salt(remote, bytes, fresh, now_ms)
    }
}

/// A handshake message that the peer framed is taken in by the connection: when a side
/// receives the frame of a connection packet from `remote` that is new to it and not too old,
/// its connection moves on as [`spec_incoming`] says (every request accepted, `fresh` as the
/// own salt), and an error of that step is what the datagram gives.
pub proof fn law_handshake_frame_taken<S, R: ByteRepr>(
    before: InnerCommunicator<S, R>,
    after: InnerCommunicator<S, R>,
    remote: PeerAddr,
    sequence_id: u16,
    ack: PacketAck,
    con_data: InsecureConnectionEstablishment,
    fresh: u32,
    now: u64,
    r: Option<Result<(), Error>>,
)
    requires
        before.wf(),
        after.datagram_received(
            &before,
            remote,
            spec_frame(
                before.protocol_version,
                spec_packet_bytes::<R>(PacketView::Connection(sequence_id, ack, con_data), 0),
            ),
            fresh,
            now,
            r,
        ),
        !before.reliable_ordered.recv_buffer@.contains_key(sequence_id),
        !spec_too_old(before.reliable_ordered.recv_buffer.newest(), sequence_id),
    ensures
        ({
            let step = spec_incoming(before.connection.state, remote, con_data, true, fresh, now);
            &&& after.connection.state == step.0
            &&& r is Some
            &&& step.1 is Err ==> r == Some(Err::<(), Error>(step.1->Err_0))
        }),
{
    crate::session::law_session_roundtrip::<R>(
        before.connection.state,
        before.protocol_version,
        remote,
        0,
        PacketView::Connection(sequence_id, ack, con_data),
    );
}

} // verus!
