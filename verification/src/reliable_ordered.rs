//! The reliable ordered messages of a session: what is queued to be sent, the packets waiting
//! for their acknowledgement (kept as the frames that carry them), and the packets received,
//! which hand out their messages in order.
use vstd::prelude::*;
use std::collections::VecDeque;
use crate::byte_repr::ByteRepr;
use crate::communicator::{
    FixedResend,
    spec_resend,
    all_absent,
    fit_count,
    greedy_count,
    lemma_free_run,
    lemma_free_run_ge,
    lemma_greedy_fits,
    lemma_window_step,
    free_run,
    msg_len,
    packs_fit,
    packed,
    total_len,
    ResendAction,
    ResendContext,
    deliver_run,
    drain_run,
    run_len,
    run_msgs,
    spec_too_old,
    vec_views,
};
use crate::context::Priority;
use crate::error::Error;
use crate::packet::{ack_bits, ack_bits_of, acked_indices, bit_set};
use crate::ring_buffer::{RingBuffer, dist, spec_insert, wadd, wrapping_gt, wsub};
use crate::byte_repr::items_to_bytes;
use crate::frame::spec_frame;
use crate::packet::PacketDataView;
use crate::session::{Packet, PacketAck, PacketView, session_salt, spec_packet_bytes};
use crate::connection::InsecureConnection;
use crate::packet::{MAX_PACKET_DATA_LEN, PacketData, ReliablePacketKind};
use crate::ring_buffer::{in_window, keep_window, lemma_dist_wadd};
use vstd::bytes::*;
use crate::session::PartialPacketAck;

verus! {

/// What happened to a reliable packet so far. Times are in milliseconds.
#[derive(Debug, Clone, Copy, PartialEq, Eq, Structural)]
pub enum ReliablePacketState {
    /// The packet was made and not sent yet.
    Constructed,
    /// The packet was first sent at `first_send` and has been sent `times_send` times.
    Sending { first_send: u64, times_send: u32 },
    /// The resend strategy decided not to send the packet again after its last send.
    SendLimitReached { first_send: u64, times_send: u32 },
    /// The acknowledgement arrived at `ack_received`.
    Acknowledged { first_send: u64, times_send: u32, ack_received: u64 },
}

/// The trace of a packet: its id, its priority and its state.
#[derive(Debug, Clone, Copy, PartialEq, Eq, Structural)]
pub struct PacketTrace {
    pub id: u16,
    pub priority: Priority,
    pub state: ReliablePacketState,
}

/// What happened to a traced message so far.
#[derive(Debug, Clone, Copy, PartialEq, Eq, Structural)]
pub enum MessageState {
    /// The message waits in the queue.
    Queued,
    /// The message was taken back before it was sent; nothing here does that yet.
    Cancelled,
    /// The message was put into the packet `packet_id`, which is in state `state`.
    Packeted { packet_id: u16, packet_priority: Priority, state: ReliablePacketState },
}

/// The handle of a traced message: the ticket it was queued with.
#[derive(Debug, Clone, Copy, PartialEq, Eq, Structural)]
pub struct MessageTrace {
    pub ticket: u64,
}

/// A reliable ordered packet waiting for its acknowledgement: the frame that carries it, its
/// priority, what the resend strategy remembers of it, its state, and the tickets of its
/// messages (`None` for a message queued without a trace).
pub struct PendingFrame {
    pub frame: Vec<u8>,
    pub priority: Priority,
    pub context: ResendContext,
    pub state: ReliablePacketState,
    pub tickets: Vec<Option<u64>>,
}

/// A traced packet that left the pending packets: the tickets of its messages and its last
/// trace.
pub struct FinishedTrace {
    pub tickets: Vec<Option<u64>>,
    pub trace: PacketTrace,
}

/// Whether one of `tickets` is a ticket.
pub open spec fn traced(tickets: Seq<Option<u64>>) -> bool {
    exists|i: int| 0 <= i < tickets.len() && #[trigger] tickets[i] is Some
}

/// Whether one of `tickets` is a ticket.
fn any_traced(tickets: &Vec<Option<u64>>) -> (r: bool)
    ensures
        r == traced(tickets@),
{
    let mut i: usize = 0;
    while i < tickets.len()
        invariant
            i <= tickets@.len(),
            forall|j: int| 0 <= j < i ==> tickets@[j] is None,
        decreases tickets@.len() - i,
    {
        if tickets[i].is_some() {
            return true;
        }
        i = i + 1;
    }
    false
}

/// The state of a packet after a send at `now` that left it sent `times` times; `keep` tells
/// whether it is sent again later.
pub open spec fn trace_step(s: ReliablePacketState, keep: bool, now: u64, times: u32) -> ReliablePacketState {
    match s {
        ReliablePacketState::Constructed => if keep {
            ReliablePacketState::Sending { first_send: now, times_send: times }
        } else {
            ReliablePacketState::SendLimitReached { first_send: now, times_send: times }
        },
        ReliablePacketState::Sending { first_send, .. } => if keep {
            ReliablePacketState::Sending { first_send, times_send: times }
        } else {
            ReliablePacketState::SendLimitReached { first_send, times_send: times }
        },
        _ => s,
    }
}

/// [`trace_step`].
fn next_state(s: ReliablePacketState, keep: bool, now: u64, times: u32) -> (r: ReliablePacketState)
    ensures
        r == trace_step(s, keep, now, times),
{
    match s {
        ReliablePacketState::Constructed => if keep {
            ReliablePacketState::Sending { first_send: now, times_send: times }
        } else {
            ReliablePacketState::SendLimitReached { first_send: now, times_send: times }
        },
        ReliablePacketState::Sending { first_send, .. } => if keep {
            ReliablePacketState::Sending { first_send, times_send: times }
        } else {
            ReliablePacketState::SendLimitReached { first_send, times_send: times }
        },
        _ => s,
    }
}

/// The state of a packet whose acknowledgement arrived at `now`: a sent packet is
/// acknowledged; one that was never sent keeps its state.
pub open spec fn acked_state(s: ReliablePacketState, now: u64) -> ReliablePacketState {
    match s {
        ReliablePacketState::Sending { first_send, times_send } => ReliablePacketState::Acknowledged {
            first_send,
            times_send,
            ack_received: now,
        },
        ReliablePacketState::SendLimitReached { first_send, times_send } => ReliablePacketState::Acknowledged {
            first_send,
            times_send,
            ack_received: now,
        },
        _ => s,
    }
}

/// [`acked_state`].
fn ack_state(s: ReliablePacketState, now: u64) -> (r: ReliablePacketState)
    ensures
        r == acked_state(s, now),
{
    match s {
        ReliablePacketState::Sending { first_send, times_send } => ReliablePacketState::Acknowledged {
            first_send,
            times_send,
            ack_received: now,
        },
        ReliablePacketState::SendLimitReached { first_send, times_send } => ReliablePacketState::Acknowledged {
            first_send,
            times_send,
            ack_received: now,
        },
        _ => s,
    }
}

/// The traced packets among `m` that `bits` acknowledges, counting back from `newest`, for
/// the first `n` bits, oldest bit first: the tickets and the trace of each, acknowledged at
/// `now`.
pub open spec fn acked_traces(
    m: Map<u16, PendingFrame>,
    newest: u16,
    bits: u32,
    n: nat,
    now: u64,
) -> Seq<(Seq<Option<u64>>, PacketTrace)>
    decreases n,
{
    if n == 0 {
        Seq::empty()
    } else {
        let prev = acked_traces(m, newest, bits, (n - 1) as nat, now);
        let idx = wsub(newest, n - 1);
        if bit_set(bits, n - 1) && m.contains_key(idx) && traced(m[idx].tickets@) {
            prev.push(
                (
                    m[idx].tickets@,
                    PacketTrace {
                        id: idx,
                        priority: m[idx].priority,
                        state: acked_state(m[idx].state, now),
                    },
                ),
            )
        } else {
            prev
        }
    }
}

/// Whether `tickets` holds `ticket`.
fn has_ticket(tickets: &Vec<Option<u64>>, ticket: u64) -> (r: bool)
    ensures
        r == tickets@.contains(Some(ticket)),
{
    let mut i: usize = 0;
    while i < tickets.len()
        invariant
            i <= tickets@.len(),
            forall|j: int| 0 <= j < i ==> tickets@[j] != Some(ticket),
        decreases tickets@.len() - i,
    {
        if tickets[i] == Some(ticket) {
            assert(tickets@[i as int] == Some(ticket));
            return true;
        }
        i = i + 1;
    }
    false
}

/// The first of the `n` indices from `start` on whose packet in `m` holds `ticket`.
pub open spec fn find_pending(m: Map<u16, PendingFrame>, start: u16, ticket: u64, n: nat) -> Option<
    u16,
>
    decreases n,
{
    if n == 0 {
        None
    } else {
        match find_pending(m, start, ticket, (n - 1) as nat) {
            Some(i) => Some(i),
            None => {
                let idx = wadd(start, n - 1);
                if m.contains_key(idx) && m[idx].tickets@.contains(Some(ticket)) {
                    Some(idx)
                } else {
                    None
                }
            },
        }
    }
}

/// Once found among the first `k` indices, a packet stays the one found among more.
proof fn lemma_find_pending_stays(m: Map<u16, PendingFrame>, start: u16, ticket: u64, k: nat, n: nat)
    requires
        k <= n,
        find_pending(m, start, ticket, k) is Some,
    ensures
        find_pending(m, start, ticket, n) == find_pending(m, start, ticket, k),
    decreases n,
{
    if n > k {
        lemma_find_pending_stays(m, start, ticket, k, (n - 1) as nat);
    }
}

/// Once found among the first `k` finished packets, a trace stays the one found among more.
proof fn lemma_find_finished_stays(
    fs: Seq<(Seq<Option<u64>>, PacketTrace)>,
    ticket: u64,
    k: nat,
    n: nat,
)
    requires
        k <= n,
        find_finished(fs, ticket, k) is Some,
    ensures
        find_finished(fs, ticket, n) == find_finished(fs, ticket, k),
    decreases n,
{
    if n > k {
        lemma_find_finished_stays(fs, ticket, k, (n - 1) as nat);
    }
}

/// The trace of the first of the first `n` finished packets `fs` that holds `ticket`.
pub open spec fn find_finished(
    fs: Seq<(Seq<Option<u64>>, PacketTrace)>,
    ticket: u64,
    n: nat,
) -> Option<PacketTrace>
    decreases n,
{
    if n == 0 {
        None
    } else {
        match find_finished(fs, ticket, (n - 1) as nat) {
            Some(t) => Some(t),
            None => if fs[n - 1].0.contains(Some(ticket)) {
                Some(fs[n - 1].1)
            } else {
                None
            },
        }
    }
}

/// The tickets and trace of each finished packet of `fs`.
pub open spec fn finished_views(fs: Seq<FinishedTrace>) -> Seq<(Seq<Option<u64>>, PacketTrace)> {
    fs.map_values(|f: FinishedTrace| (f.tickets@, f.trace))
}

/// The rank of a priority: low, default, high.
pub open spec fn priority_rank(p: Priority) -> int {
    match p {
        Priority::Low => 0,
        Priority::Default => 1,
        Priority::High => 2,
    }
}

/// The higher of two priorities.
pub fn max_priority(a: Priority, b: Priority) -> (r: Priority)
    ensures
        priority_rank(r) == if priority_rank(a) >= priority_rank(b) {
            priority_rank(a)
        } else {
            priority_rank(b)
        },
        r == a || r == b,
{
    match (a, b) {
        (Priority::High, _) => a,
        (_, Priority::High) => b,
        (Priority::Default, _) => a,
        (_, Priority::Default) => b,
        _ => a,
    }
}

/// The reliable ordered side of a session.
///
/// At most 32 packets are pending at once: the 33rd waits until the first one was
/// acknowledged.
pub struct ReliableOrdered<S, R> {
    /// The messages waiting to be put into packets.
    pub send_queue: Vec<S>,
    /// The priority of each queued message.
    pub send_priorities: Vec<Priority>,
    /// The ticket of each queued message, `None` for one queued without a trace.
    pub send_tickets: Vec<Option<u64>>,
    /// The ticket the next traced message gets.
    pub next_ticket: u64,
    /// The traced packets that were acknowledged or sent for the last time, oldest first.
    pub finished: Vec<FinishedTrace>,
    /// The messages received, in order, and not read yet.
    pub recv_queue: VecDeque<R>,
    /// The packets sent and not acknowledged yet.
    pub pending: RingBuffer<PendingFrame, 32>,
    /// The packets received, with the messages not handed out yet.
    pub recv_buffer: RingBuffer<Vec<R>, 32>,
    /// The sequence id of the next packet to be read.
    pub read_packet_head: u16,
}


/// The deep views of the messages `msgs`.
pub open spec fn deep_msgs<S: DeepView>(msgs: Seq<S>) -> Seq<S::V> {
    Seq::new(msgs.len(), |i: int| msgs[i].deep_view())
}

/// The highest rank among the priorities `ps`; the rank of [`Priority::Low`] if there is none.
pub open spec fn max_rank(ps: Seq<Priority>) -> int
    decreases ps.len(),
{
    if ps.len() == 0 {
        0
    } else {
        let a = max_rank(ps.drop_last());
        let b = priority_rank(ps.last());
        if a >= b {
            a
        } else {
            b
        }
    }
}

/// The frame that carries the reliable ordered packet `seq` with the messages `msgs` and the
/// acknowledgement `ack`, in a session with salt `salt`, for `version`.
pub open spec fn ordered_frame<S: ByteRepr>(
    version: u32,
    salt: u32,
    seq: u16,
    ack: PacketAck,
    msgs: Seq<S>,
) -> Seq<u8> {
    spec_frame(
        version,
        spec_packet_bytes::<S>(
            PacketView::Data(seq, ack, PacketDataView::ReliableOrdered(deep_msgs(msgs))),
            salt,
        ),
    )
}

/// What [`ReliableOrdered::flush_messages`] does to `o`, giving `n`: the queued messages are
/// put into new pending packets as far as the buffer allows, each taking as many of the
/// messages left as fit into it; each packet carries `ack`, its frame is made for `version` and
/// the session salt `salt`, and its priority is the highest of its messages'.
pub open spec fn ordered_flushed<S: ByteRepr, R>(
    n: ReliableOrdered<S, R>,
    o: ReliableOrdered<S, R>,
    ack: PacketAck,
    salt: u32,
    version: u32,
) -> bool {
    let m0 = o.pending@;
    let newest0 = o.pending.newest();
    let chunks = packed(o.send_queue@, free_run(m0, wsub(newest0, 31), 32));
    let p = chunks.len();
    let used = chunks.flatten_alt().len();
    &&& o.send_queue@ == chunks.flatten_alt() + n.send_queue@
    &&& n.send_priorities@ == o.send_priorities@.skip(used as int)
    &&& n.send_tickets@ == o.send_tickets@.skip(used as int)
    &&& n.pending.newest() == wadd(newest0, p as int)
    &&& forall|x: u16| #[trigger] n.pending@.contains_key(x) <==> (m0.contains_key(x) || 1 <= dist(x, newest0) <= p)
    &&& forall|x: u16| #[trigger] m0.contains_key(x) ==> n.pending@[x] == m0[x]
    &&& forall|j: int| 0 <= j < p ==> {
        let pp = #[trigger] n.pending@[wadd(newest0, j + 1)];
        let start = chunks.take(j).flatten_alt().len() as int;
        &&& pp.context == (ResendContext { last_send_ms: None, times_sent: 0 })
        &&& pp.frame@ == ordered_frame(version, salt, wadd(newest0, j + 1), ack, chunks[j])
        &&& priority_rank(pp.priority) == max_rank(
            o.send_priorities@.subrange(start, start + chunks[j].len()),
        )
        &&& pp.state == ReliablePacketState::Constructed
        &&& pp.tickets@ == o.send_tickets@.subrange(start, start + chunks[j].len())
    }
    &&& n.next_ticket == o.next_ticket
    &&& n.finished == o.finished
    &&& n.recv_queue == o.recv_queue
    &&& n.recv_buffer == o.recv_buffer
    &&& n.read_packet_head == o.read_packet_head
}

/// Appending a message adds its length.
proof fn lemma_total_len_push<S: ByteRepr>(vs: Seq<S>, x: S)
    ensures
        total_len(vs.push(x)) == total_len(vs) + msg_len(x),
    decreases vs.len(),
{
    if vs.len() == 0 {
        assert(vs.push(x).drop_first() =~= Seq::<S>::empty());
        assert(vs.push(x)[0] == x);
        assert(total_len(Seq::<S>::empty()) == 0);
    } else {
        lemma_total_len_push(vs.drop_first(), x);
        assert(vs.push(x).drop_first() =~= vs.drop_first().push(x));
        assert(vs.push(x)[0] == vs[0]);
    }
}

/// The bytes of the messages, one after the other, are as many as their lengths add up to.
proof fn lemma_items_len<S: ByteRepr>(vs: Seq<S>)
    ensures
        items_to_bytes::<S>(deep_msgs(vs)).len() == total_len(vs),
    decreases vs.len(),
{
    if vs.len() > 0 {
        let init = vs.drop_last();
        lemma_items_len(init);
        assert(deep_msgs(vs).drop_last() =~= deep_msgs(init));
        assert(init.push(vs.last()) =~= vs);
        lemma_total_len_push(init, vs.last());
    } else {
        assert(deep_msgs(vs) =~= Seq::<S::V>::empty());
    }
}

/// The highest priority of `ps`.
fn highest_priority(ps: &Vec<Priority>) -> (r: Priority)
    ensures
        priority_rank(r) == max_rank(ps@),
{
    let mut p = Priority::Low;
    let mut i: usize = 0;
    assert(ps@.take(0) =~= Seq::<Priority>::empty());
    while i < ps.len()
        invariant
            i <= ps@.len(),
            priority_rank(p) == max_rank(ps@.take(i as int)),
        decreases ps@.len() - i,
    {
        assert(ps@.take(i + 1).drop_last() =~= ps@.take(i as int));
        p = max_priority(p, ps[i]);
        i = i + 1;
    }
    assert(ps@.take(i as int) =~= ps@);
    p
}


/// Put the leading messages of `queue` (with priorities `prios`) into new pending packets as
/// long as a push would not drop a pending packet; see [`ordered_flushed`].
#[verifier::spinoff_prover]
#[verifier::rlimit(80)]
fn flush_ordered<S: ByteRepr>(
    pending: &mut RingBuffer<PendingFrame, 32>,
    queue: &mut Vec<S>,
    prios: &mut Vec<Priority>,
    tickets: &mut Vec<Option<u64>>,
    connection: &mut InsecureConnection,
    resend: &FixedResend,
    ack: PacketAck,
    version: u32,
)
    requires
        old(pending).wf(),
        old(queue)@.len() == old(prios)@.len(),
        old(queue)@.len() == old(tickets)@.len(),
        packs_fit(old(queue)@, free_run(old(pending)@, wsub(old(pending).newest(), 31), 32)),
        old(queue)@.len() > 0 ==> old(connection).state is Connected,
    ensures
        final(pending).wf(),
        *final(connection) == *old(connection),
        final(queue)@.len() == final(prios)@.len(),
        final(queue)@.len() == final(tickets)@.len(),
        ({
            let m0 = old(pending)@;
            let newest0 = old(pending).newest();
            let chunks = packed(old(queue)@, free_run(m0, wsub(newest0, 31), 32));
            let p = chunks.len();
            let used = chunks.flatten_alt().len();
            let salt = session_salt(old(connection).state);
            &&& old(queue)@ == chunks.flatten_alt() + final(queue)@
            &&& final(prios)@ == old(prios)@.skip(used as int)
            &&& final(tickets)@ == old(tickets)@.skip(used as int)
            &&& final(pending).newest() == wadd(newest0, p as int)
            &&& forall|x: u16| #[trigger] final(pending)@.contains_key(x) <==> (m0.contains_key(x) || 1 <= dist(x, newest0) <= p)
            &&& forall|x: u16| #[trigger] m0.contains_key(x) ==> final(pending)@[x] == m0[x]
            &&& forall|j: int| 0 <= j < p ==> {
                let pp = #[trigger] final(pending)@[wadd(newest0, j + 1)];
                let start = chunks.take(j).flatten_alt().len() as int;
                &&& pp.context == (ResendContext { last_send_ms: None, times_sent: 0 })
                &&& pp.frame@ == ordered_frame(version, salt, wadd(newest0, j + 1), ack, chunks[j])
                &&& priority_rank(pp.priority) == max_rank(
                    old(prios)@.subrange(start, start + chunks[j].len()),
                )
                &&& pp.state == ReliablePacketState::Constructed
                &&& pp.tickets@ == old(tickets)@.subrange(start, start + chunks[j].len())
            }
        }),
{
    let ghost m0 = pending@;
    let ghost newest0 = pending.newest();
    let ghost oldest0 = wsub(newest0, 31);
    let ghost q0 = queue@;
    let ghost p0 = prios@;
    let ghost t0 = tickets@;
    let ghost salt = session_salt(connection.state);
    let ghost total = free_run(m0, oldest0, 32);
    let ghost mut chunks: Seq<Seq<S>> = Seq::empty();
    let mut j: u16 = 0;
    proof {
        assert(q0 =~= chunks.flatten_alt() + queue@);
        assert(packed(q0, total) =~= chunks + packed(queue@, total));
        assert(prios@ =~= p0.skip(0));
        assert(tickets@ =~= t0.skip(0));
        assert forall|x: u16| #[trigger] m0.contains_key(x) implies in_window(newest0, x, 32) by {
            old(pending).lemma_view_in_window(x);
        }
    }
    while !pending.push_will_override() && queue.len() > 0
        invariant
            pending.wf(),
            *connection == *old(connection),
            salt == session_salt(old(connection).state),
            q0.len() > 0 ==> connection.state is Connected,
            m0 == old(pending)@,
            newest0 == old(pending).newest(),
            oldest0 == wsub(newest0, 31),
            q0 == old(queue)@,
            p0 == old(prios)@,
            t0 == old(tickets)@,
            q0.len() == p0.len(),
            q0.len() == t0.len(),
            total == free_run(m0, oldest0, 32),
            packs_fit(queue@, (total - j) as nat),
            queue@.len() == prios@.len(),
            queue@.len() == tickets@.len(),
            j <= 32,
            j == chunks.len(),
            all_absent(m0, oldest0, j as nat),
            forall|x: u16| #[trigger] m0.contains_key(x) ==> in_window(newest0, x, 32),
            pending.newest() == wadd(newest0, j as int),
            q0 == chunks.flatten_alt() + queue@,
            prios@ == p0.skip(chunks.flatten_alt().len() as int),
            tickets@ == t0.skip(chunks.flatten_alt().len() as int),
            j <= total,
            packed(q0, total) == chunks + packed(queue@, (total - j) as nat),
            forall|x: u16| #[trigger] pending@.contains_key(x) <==> (m0.contains_key(x) || 1 <= dist(x, newest0) <= j),
            forall|x: u16| #[trigger] m0.contains_key(x) ==> pending@[x] == m0[x],
            forall|i: int| 0 <= i < j ==> {
                let pp = #[trigger] pending@[wadd(newest0, i + 1)];
                let start = chunks.take(i).flatten_alt().len() as int;
                &&& pp.context == (ResendContext { last_send_ms: None, times_sent: 0 })
                &&& pp.frame@ == ordered_frame(version, salt, wadd(newest0, i + 1), ack, chunks[i])
                &&& priority_rank(pp.priority) == max_rank(p0.subrange(start, start + chunks[i].len()))
                &&& pp.state == ReliablePacketState::Constructed
                &&& pp.tickets@ == t0.subrange(start, start + chunks[i].len())
            },
        decreases 32 - j,
    {
        let ghost before = pending@;
        let ghost queue_before = queue@;
        let ghost prios_before = prios@;
        let ghost tickets_before = tickets@;
        proof {
            lemma_window_step(newest0, j as int);
            assert(!before.contains_key(wadd(oldest0, j as int)));
            if j == 32 {
                assert(before.contains_key(wadd(newest0, 1)));
            }
            assert(j < 32);
            assert(!m0.contains_key(wadd(oldest0, j as int)));
            assert(all_absent(m0, oldest0, (j + 1) as nat));
            lemma_free_run_ge(m0, oldest0, (j + 1) as nat, 32);
        }
        let k = fit_count(queue);
        let mut messages = queue.split_off(k);
        std::mem::swap(queue, &mut messages);
        let mut chunk_prios = prios.split_off(k);
        std::mem::swap(prios, &mut chunk_prios);
        let mut chunk_tickets = tickets.split_off(k);
        std::mem::swap(tickets, &mut chunk_tickets);
        let priority = highest_priority(&chunk_prios);
        let seq = pending.get_next_index();
        let ghost chunk = messages@;
        proof {
            lemma_greedy_fits(queue_before, MAX_PACKET_DATA_LEN as int);
            assert(chunk == queue_before.take(k as int));
            lemma_items_len(chunk);
            assert(messages.deep_view() =~= deep_msgs(chunk));
        }
        let data = PacketData::ReliableOrdered { messages };
        proof {
            lemma_auto_spec_u32_to_from_le_bytes();
            assert(data.deep_view() == PacketDataView::<S::V>::ReliableOrdered(deep_msgs(chunk)));
            assert(PacketData::<S>::spec_to_bytes(data.deep_view()).len() == 5 + total_len(chunk));
        }
        let dl = data.byte_len();
        let mut buffer: Vec<u8> = vec![0u8; 23 + dl];
        let packet = Packet::Data { sequence_id: seq, ack, data };
        let w = connection.write_packet(version, buffer.as_mut_slice(), packet);
        proof {
            lemma_auto_spec_u16_to_from_le_bytes();
            lemma_auto_spec_u32_to_from_le_bytes();
            assert(w is Ok);
            assert(buffer@ =~= ordered_frame(version, salt, seq, ack, chunk));
        }
        let context = resend.new_packet(ReliablePacketKind::Ordered);
        let ghost ct = chunk_tickets;
        let ghost pp = PendingFrame {
            frame: buffer,
            priority,
            context,
            state: ReliablePacketState::Constructed,
            tickets: ct,
        };
        pending.push(
            PendingFrame {
                frame: buffer,
                priority,
                context,
                state: ReliablePacketState::Constructed,
                tickets: chunk_tickets,
            },
        );
        proof {
            crate::ring_buffer::lemma_wadd_step(newest0, j as int);
            assert(seq == wadd(newest0, j + 1));
            assert(dist(seq, newest0) == j + 1);
            assert(queue@ == queue_before.skip(k as int));
            crate::communicator::lemma_push_keeps_all(before, m0, newest0, j as int);
            assert(pending@ == before.insert(seq, pp));
            let used = chunks.flatten_alt().len();
            let chunks2 = chunks.push(chunk);
            assert(chunks2.drop_last() =~= chunks);
            assert(chunks2.flatten_alt() == chunks.flatten_alt() + chunk);
            assert(queue_before =~= chunk + queue@);
            assert(q0 =~= chunks2.flatten_alt() + queue@);
            assert(chunk_prios@ == prios_before.take(k as int));
            assert(prios@ == prios_before.skip(k as int));
            assert(prios@ =~= p0.skip(chunks2.flatten_alt().len() as int));
            assert(chunk_prios@ =~= p0.subrange(used as int, (used + chunk.len()) as int));
            assert(ct@ == tickets_before.take(k as int));
            assert(tickets@ == tickets_before.skip(k as int));
            assert(tickets@ =~= t0.skip(chunks2.flatten_alt().len() as int));
            assert(ct@ =~= t0.subrange(used as int, (used + chunk.len()) as int));
            assert(chunks2.take(j as int) =~= chunks);
            assert(greedy_count(queue_before, MAX_PACKET_DATA_LEN as int) == k);
            assert(packed(queue_before, (total - j) as nat) =~= seq![chunk] + packed(
                queue@,
                (total - j - 1) as nat,
            ));
            assert(packed(q0, total) =~= chunks2 + packed(queue@, (total - j - 1) as nat));
            assert forall|i: int| 0 <= i < j + 1 implies {
                let pq = #[trigger] pending@[wadd(newest0, i + 1)];
                let start = chunks2.take(i).flatten_alt().len() as int;
                &&& pq.context == (ResendContext { last_send_ms: None, times_sent: 0 })
                &&& pq.frame@ == ordered_frame(version, salt, wadd(newest0, i + 1), ack, chunks2[i])
                &&& priority_rank(pq.priority) == max_rank(p0.subrange(start, start + chunks2[i].len()))
                &&& pq.state == ReliablePacketState::Constructed
                &&& pq.tickets@ == t0.subrange(start, start + chunks2[i].len())
            } by {
                if i < j {
                    lemma_window_step(newest0, i);
                    assert(wadd(newest0, i + 1) != seq);
                    assert(chunks2[i] == chunks[i]);
                    assert(chunks2.take(i) =~= chunks.take(i));
                } else {
                    assert(wadd(newest0, i + 1) == seq);
                }
            }
            chunks = chunks2;
        }
        j = j + 1;
    }
    proof {
        if queue@.len() > 0 {
            lemma_window_step(newest0, j as int);
            if j < 32 {
                assert(m0.contains_key(wadd(oldest0, j as int)));
                lemma_free_run(m0, oldest0, j as nat, 32);
            } else {
                lemma_free_run(m0, oldest0, 32, 32);
            }
            assert(total == j);
        }
        assert(packed(queue@, (total - j) as nat) =~= Seq::<Seq<S>>::empty());
        assert(packed(q0, total) =~= chunks);
    }
}


/// Going through the `k` indices from `start` on of the pending packets `m` at `now`: each
/// packet that is due is sent (its frame is appended) and recorded as sent; one sent for the
/// last time is dropped. Gives the frames and the pending packets afterwards.
pub open spec fn spec_resend_frames(
    cfg: FixedResend,
    m: Map<u16, PendingFrame>,
    start: u16,
    k: nat,
    now: u64,
) -> (Seq<Seq<u8>>, Map<u16, PendingFrame>, Seq<(Seq<Option<u64>>, PacketTrace)>)
    decreases k,
{
    if k == 0 {
        (Seq::empty(), m, Seq::empty())
    } else {
        let prev = spec_resend_frames(cfg, m, start, (k - 1) as nat, now);
        let idx = wadd(start, k - 1);
        if !prev.1.contains_key(idx) {
            prev
        } else {
            let pp = prev.1[idx];
            let (act, ctx) = spec_resend(cfg, pp.context, now);
            match act {
                ResendAction::DoNotResend => prev,
                ResendAction::Resend => {
                    let sent = PendingFrame {
                        frame: pp.frame,
                        priority: pp.priority,
                        context: ctx,
                        state: trace_step(pp.state, true, now, ctx.times_sent),
                        tickets: pp.tickets,
                    };
                    (prev.0.push(pp.frame@), prev.1.insert(idx, sent), prev.2)
                },
                ResendAction::ResendThenDrop => {
                    let last = PacketTrace {
                        id: idx,
                        priority: pp.priority,
                        state: trace_step(pp.state, false, now, ctx.times_sent),
                    };
                    (
                        prev.0.push(pp.frame@),
                        prev.1.remove(idx),
                        if traced(pp.tickets@) {
                            prev.2.push((pp.tickets@, last))
                        } else {
                            prev.2
                        },
                    )
                },
            }
        }
    }
}

/// A copy of `bytes`.
fn copy_bytes(bytes: &Vec<u8>) -> (r: Vec<u8>)
    ensures
        r@ == bytes@,
{
    let mut out: Vec<u8> = Vec::new();
    let mut i: usize = 0;
    while i < bytes.len()
        invariant
            i <= bytes@.len(),
            out@ == bytes@.take(i as int),
        decreases bytes@.len() - i,
    {
        out.push(bytes[i]);
        i = i + 1;
        assert(out@ =~= bytes@.take(i as int));
    }
    assert(bytes@.take(i as int) =~= bytes@);
    out
}

/// A place that can hold a ticket: a position of the queue, a pending packet, or a finished
/// trace.
pub enum TicketPlace {
    Queued(int),
    Pending(u16),
    Finished(int),
}

/// Whether the place `p` holds `ticket`, among the queued tickets `q`, the pending packets `m`
/// and the finished traces `fs`.
pub open spec fn held_at(
    q: Seq<Option<u64>>,
    m: Map<u16, PendingFrame>,
    fs: Seq<(Seq<Option<u64>>, PacketTrace)>,
    p: TicketPlace,
    ticket: u64,
) -> bool {
    match p {
        TicketPlace::Queued(a) => 0 <= a < q.len() && q[a] == Some(ticket),
        TicketPlace::Pending(x) => m.contains_key(x) && m[x].tickets@.contains(Some(ticket)),
        TicketPlace::Finished(i) => 0 <= i < fs.len() && fs[i].0.contains(Some(ticket)),
    }
}

/// At most one place holds `ticket`.
pub open spec fn single_place(
    q: Seq<Option<u64>>,
    m: Map<u16, PendingFrame>,
    fs: Seq<(Seq<Option<u64>>, PacketTrace)>,
    ticket: u64,
) -> bool {
    forall|p1: TicketPlace, p2: TicketPlace|
        #[trigger] held_at(q, m, fs, p1, ticket) && #[trigger] held_at(q, m, fs, p2, ticket)
            ==> p1 == p2
}

/// A ticket held somewhere is held at some place.
#[verifier::rlimit(30)]
proof fn lemma_holder<S, R>(o: ReliableOrdered<S, R>, ticket: u64) -> (p: TicketPlace)
    requires
        o.holds_ticket(ticket),
    ensures
        o.holds_at(p, ticket),
{
    let fs = finished_views(o.finished@);
    if o.send_tickets@.contains(Some(ticket)) {
        let a = choose|a: int| 0 <= a < o.send_tickets@.len() && o.send_tickets@[a] == Some(ticket);
        TicketPlace::Queued(a)
    } else if exists|x: u16|
        #[trigger] o.pending@.contains_key(x) && o.pending@[x].tickets@.contains(Some(ticket)) {
        let x = choose|x: u16|
            #[trigger] o.pending@.contains_key(x) && o.pending@[x].tickets@.contains(Some(ticket));
        TicketPlace::Pending(x)
    } else {
        let i = choose|i: int|
            0 <= i < o.finished@.len() && #[trigger] o.finished@[i].tickets@.contains(Some(ticket));
        assert(fs[i].0 == o.finished@[i].tickets@);
        TicketPlace::Finished(i)
    }
}

/// A ticket held at some place is held.
proof fn lemma_holder_holds<S, R>(o: ReliableOrdered<S, R>, p: TicketPlace, ticket: u64)
    requires
        o.holds_at(p, ticket),
    ensures
        o.holds_ticket(ticket),
{
    let fs = finished_views(o.finished@);
    match p {
        TicketPlace::Queued(a) => {
            assert(o.send_tickets@[a] == Some(ticket));
        },
        TicketPlace::Pending(x) => {
            assert(o.pending@.contains_key(x) && o.pending@[x].tickets@.contains(Some(ticket)));
        },
        TicketPlace::Finished(i) => {
            assert(fs[i].0 == o.finished@[i].tickets@);
            assert(o.finished@[i].tickets@.contains(Some(ticket)));
        },
    }
}

/// Where every place of `n` that holds a ticket maps, by `back`, to a place of `o` that holds
/// it, and distinct places to distinct ones, no ticket is held in `n` that was not in `o`, and
/// tickets in order in `o` are in order in `n`.
#[verifier::rlimit(30)]
proof fn lemma_wf_transfer<S, R>(
    o: ReliableOrdered<S, R>,
    n: ReliableOrdered<S, R>,
    back: spec_fn(TicketPlace, u64) -> TicketPlace,
)
    requires
        o.next_ticket <= n.next_ticket,
        forall|p: TicketPlace, t: u64| #[trigger] n.holds_at(p, t) ==> o.holds_at(back(p, t), t),
        forall|p1: TicketPlace, p2: TicketPlace, t: u64|
            #[trigger] n.holds_at(p1, t) && #[trigger] n.holds_at(p2, t) && back(p1, t) == back(
                p2,
                t,
            ) ==> p1 == p2,
    ensures
        forall|t: u64| #[trigger] n.holds_ticket(t) ==> o.holds_ticket(t),
        o.tickets_wf() ==> n.tickets_wf(),
{
    assert forall|t: u64| #[trigger] n.holds_ticket(t) implies o.holds_ticket(t) by {
        let p = lemma_holder(n, t);
        lemma_holder_holds(o, back(p, t), t);
    }
    if o.tickets_wf() {
        assert forall|t: u64| #[trigger] n.holds_ticket(t) implies t < n.next_ticket by {
            assert(o.holds_ticket(t));
        }
        let nq = n.send_tickets@;
        let nm = n.pending@;
        let nf = finished_views(n.finished@);
        let oq = o.send_tickets@;
        let om = o.pending@;
        let of = finished_views(o.finished@);
        assert forall|t: u64| #[trigger] single_place(nq, nm, nf, t) by {
            assert forall|p1: TicketPlace, p2: TicketPlace|
                #[trigger] held_at(nq, nm, nf, p1, t) && #[trigger] held_at(
                    nq,
                    nm,
                    nf,
                    p2,
                    t,
                ) implies p1 == p2 by {
                assert(n.holds_at(p1, t));
                assert(n.holds_at(p2, t));
                assert(single_place(oq, om, of, t));
                assert(held_at(oq, om, of, back(p1, t), t));
                assert(held_at(oq, om, of, back(p2, t), t));
            }
        }
    }
}

/// Where the queue, the pending packets, the finished traces and the next ticket stay, so do
/// the tickets.
proof fn lemma_same_tickets<S, R>(o: ReliableOrdered<S, R>, n: ReliableOrdered<S, R>)
    requires
        n.send_tickets == o.send_tickets,
        n.pending == o.pending,
        n.finished == o.finished,
        n.next_ticket == o.next_ticket,
    ensures
        n.tickets_follow(&o),
{
    lemma_wf_transfer(o, n, |p: TicketPlace, t: u64| p);
    assert forall|t: u64| #[trigger] o.holds_ticket(t) implies n.holds_ticket(t) by {
        let p = lemma_holder(o, t);
        lemma_holder_holds(n, p, t);
    }
}

/// Appending `x`, which holds no ticket handed out, to the queued tickets keeps the tickets in
/// order; where `x` is the next ticket, the next ticket moves on past it.
#[verifier::rlimit(30)]
proof fn lemma_push_tickets<S, R>(o: ReliableOrdered<S, R>, n: ReliableOrdered<S, R>, x: Option<u64>)
    requires
        n.send_tickets@ == o.send_tickets@.push(x),
        n.pending == o.pending,
        n.finished == o.finished,
        x is None ==> n.next_ticket == o.next_ticket,
        x is Some ==> x->0 == o.next_ticket && n.next_ticket == o.next_ticket + 1,
    ensures
        o.tickets_wf() ==> n.tickets_wf(),
{
    let len = o.send_tickets@.len() as int;
    if o.tickets_wf() {
        assert forall|p: TicketPlace, t: u64| #[trigger] n.holds_at(p, t) && p != TicketPlace::Queued(
            len,
        ) implies o.holds_at(p, t) by {
            if let TicketPlace::Queued(a) = p {
                assert(n.send_tickets@[a] == o.send_tickets@[a]);
            }
        }
        assert forall|t: u64| #[trigger] n.holds_ticket(t) implies t < n.next_ticket by {
            let p = lemma_holder(n, t);
            if p != TicketPlace::Queued(len) {
                lemma_holder_holds(o, p, t);
            }
        }
        let nq = n.send_tickets@;
        let nm = n.pending@;
        let nf = finished_views(n.finished@);
        let oq = o.send_tickets@;
        let om = o.pending@;
        let of = finished_views(o.finished@);
        assert forall|t: u64| #[trigger] single_place(nq, nm, nf, t) by {
            assert forall|p1: TicketPlace, p2: TicketPlace|
                #[trigger] held_at(nq, nm, nf, p1, t) && #[trigger] held_at(
                    nq,
                    nm,
                    nf,
                    p2,
                    t,
                ) implies p1 == p2 by {
                assert(n.holds_at(p1, t));
                assert(n.holds_at(p2, t));
                if p1 != TicketPlace::Queued(len) && p2 != TicketPlace::Queued(len) {
                    assert(single_place(oq, om, of, t));
                    assert(held_at(oq, om, of, p1, t));
                    assert(held_at(oq, om, of, p2, t));
                } else if p1 != TicketPlace::Queued(len) {
                    lemma_holder_holds(o, p1, t);
                } else if p2 != TicketPlace::Queued(len) {
                    lemma_holder_holds(o, p2, t);
                }
            }
        }
    }
}

/// Appending to the tickets `s` keeps every ticket of `s`.
proof fn lemma_tickets_push_keeps(s: Seq<Option<u64>>, x: Option<u64>)
    ensures
        forall|t: u64| #[trigger] s.contains(Some(t)) ==> s.push(x).contains(Some(t)),
{
    assert forall|t: u64| #[trigger] s.contains(Some(t)) implies s.push(x).contains(Some(t)) by {
        let i = choose|i: int| 0 <= i < s.len() && s[i] == Some(t);
        assert(s.push(x)[i] == Some(t));
    }
}

/// Tickets that hold `ticket` are traced.
proof fn lemma_traced(tickets: Seq<Option<u64>>, ticket: u64)
    requires
        tickets.contains(Some(ticket)),
    ensures
        traced(tickets),
{
    let i = choose|i: int| 0 <= i < tickets.len() && tickets[i] == Some(ticket);
    assert(tickets[i] is Some);
}

/// The position `p` of the flattened `chunks` lies in the chunk `j` returned.
proof fn lemma_in_chunk<S>(chunks: Seq<Seq<S>>, p: int) -> (j: int)
    requires
        0 <= p < chunks.flatten_alt().len(),
    ensures
        0 <= j < chunks.len(),
        chunks.take(j).flatten_alt().len() <= p < chunks.take(j).flatten_alt().len()
            + chunks[j].len(),
        chunks.take(j).flatten_alt().len() + chunks[j].len() <= chunks.flatten_alt().len(),
    decreases chunks.len(),
{
    let last = chunks.len() - 1;
    let init = chunks.drop_last();
    if p < init.flatten_alt().len() {
        let j = lemma_in_chunk(init, p);
        assert(init.take(j) =~= chunks.take(j));
        j
    } else {
        assert(chunks.take(last) =~= init);
        last
    }
}

/// Packing makes at most `max_packets` packets.
proof fn lemma_packed_len<S: ByteRepr>(msgs: Seq<S>, max_packets: nat)
    ensures
        packed(msgs, max_packets).len() <= max_packets,
    decreases max_packets,
{
    if max_packets > 0 && msgs.len() > 0 {
        let k = greedy_count(msgs, MAX_PACKET_DATA_LEN as int);
        if k > 0 {
            lemma_packed_len(msgs.skip(k as int), (max_packets - 1) as nat);
        }
    }
}

/// The free run is at most as long as its cap.
proof fn lemma_free_run_le<X>(m: Map<u16, X>, start: u16, k: nat)
    ensures
        free_run(m, start, k) <= k,
    decreases k,
{
    if k > 0 {
        lemma_free_run_le(m, start, (k - 1) as nat);
    }
}

/// Going through the pending packets on a send keeps each packet that holds `ticket`, with its
/// tickets, or leaves its tickets among the traces of the packets dropped.
proof fn lemma_resend_keeps_ticket(
    cfg: FixedResend,
    m: Map<u16, PendingFrame>,
    start: u16,
    k: nat,
    now: u64,
    x: u16,
    ticket: u64,
)
    requires
        m.contains_key(x),
        m[x].tickets@.contains(Some(ticket)),
    ensures
        ({
            let res = spec_resend_frames(cfg, m, start, k, now);
            ||| res.1.contains_key(x) && res.1[x].tickets@ == m[x].tickets@
            ||| exists|i: int| 0 <= i < res.2.len() && #[trigger] res.2[i].0.contains(Some(ticket))
        }),
    decreases k,
{
    if k > 0 {
        lemma_resend_keeps_ticket(cfg, m, start, (k - 1) as nat, now, x, ticket);
        let prev = spec_resend_frames(cfg, m, start, (k - 1) as nat, now);
        let res = spec_resend_frames(cfg, m, start, k, now);
        let idx = wadd(start, k - 1);
        if prev.1.contains_key(idx) {
            let pp = prev.1[idx];
            if exists|i: int| 0 <= i < prev.2.len() && #[trigger] prev.2[i].0.contains(Some(ticket)) {
                let i = choose|i: int| 0 <= i < prev.2.len() && #[trigger] prev.2[i].0.contains(Some(ticket));
                assert(res.2[i] == prev.2[i]);
            } else if x == idx {
                lemma_traced(pp.tickets@, ticket);
                if res.2.len() > prev.2.len() {
                    assert(res.2[prev.2.len() as int].0.contains(Some(ticket)));
                }
            }
        }
    }
}

/// What going through the pending packets on a send leaves: packets of `m` with their
/// tickets, and, for the packets dropped, their tickets under their ids, each id once and no
/// longer pending.
#[verifier::rlimit(30)]
proof fn lemma_resend_shape(cfg: FixedResend, m: Map<u16, PendingFrame>, start: u16, k: nat, now: u64)
    ensures
        ({
            let res = spec_resend_frames(cfg, m, start, k, now);
            &&& forall|x: u16| #[trigger] res.1.contains_key(x) ==> m.contains_key(x)
                && res.1[x].tickets@ == m[x].tickets@
            &&& forall|i: int|
                0 <= i < res.2.len() ==> {
                    let id = (#[trigger] res.2[i]).1.id;
                    &&& m.contains_key(id)
                    &&& res.2[i].0 == m[id].tickets@
                    &&& !res.1.contains_key(id)
                }
            &&& forall|i1: int, i2: int|
                0 <= i1 < i2 < res.2.len() ==> (#[trigger] res.2[i1]).1.id != (
                #[trigger] res.2[i2]).1.id
        }),
    decreases k,
{
    if k > 0 {
        lemma_resend_shape(cfg, m, start, (k - 1) as nat, now);
        let prev = spec_resend_frames(cfg, m, start, (k - 1) as nat, now);
        let res = spec_resend_frames(cfg, m, start, k, now);
        let idx = wadd(start, k - 1);
        if prev.1.contains_key(idx) {
            let pp = prev.1[idx];
            assert forall|i: int| 0 <= i < prev.2.len() implies (#[trigger] prev.2[i]).1.id != idx by {}
            assert forall|i: int| 0 <= i < prev.2.len() implies #[trigger] res.2[i] == prev.2[i] by {}
        }
    }
}

/// What acknowledging the packets of `m` that the first `n` bits of `bits` name, counting back
/// from `newest`, leaves among the traces: for each, a packet of `m` so named, with its tickets
/// under its id, each id once.
#[verifier::rlimit(30)]
proof fn lemma_acked_shape(m: Map<u16, PendingFrame>, newest: u16, bits: u32, n: nat, now: u64)
    requires
        n <= 32,
    ensures
        ({
            let a = acked_traces(m, newest, bits, n, now);
            &&& forall|i: int|
                0 <= i < a.len() ==> {
                    let id = (#[trigger] a[i]).1.id;
                    &&& acked_indices(newest, bits).contains(id)
                    &&& exists|b: int| 0 <= b < n && id == wsub(newest, b)
                    &&& m.contains_key(id)
                    &&& a[i].0 == m[id].tickets@
                }
            &&& forall|i1: int, i2: int|
                0 <= i1 < i2 < a.len() ==> (#[trigger] a[i1]).1.id != (#[trigger] a[i2]).1.id
        }),
    decreases n,
{
    if n > 0 {
        lemma_acked_shape(m, newest, bits, (n - 1) as nat, now);
        let prev = acked_traces(m, newest, bits, (n - 1) as nat, now);
        let a = acked_traces(m, newest, bits, n, now);
        let idx = wsub(newest, n - 1);
        assert forall|i: int| 0 <= i < prev.len() implies (#[trigger] prev[i]).1.id != idx by {
            let b = choose|b: int| 0 <= b < n - 1 && prev[i].1.id == wsub(newest, b);
        }
        assert forall|i: int| 0 <= i < prev.len() implies #[trigger] a[i] == prev[i] by {}
        if bit_set(bits, n - 1) && m.contains_key(idx) && traced(m[idx].tickets@) {
            assert(acked_indices(newest, bits).contains(idx)) by {
                assert(bit_set(bits, n - 1) && idx == wsub(newest, n - 1));
            }
        }
    }
}

/// Among the first `n` bits, a set bit `i` whose packet in `m` holds `ticket` leaves that
/// packet's tickets among the acknowledged traces.
proof fn lemma_acked_keeps_ticket(
    m: Map<u16, PendingFrame>,
    newest: u16,
    bits: u32,
    n: nat,
    now: u64,
    i: int,
    ticket: u64,
)
    requires
        0 <= i < n,
        bit_set(bits, i),
        m.contains_key(wsub(newest, i)),
        m[wsub(newest, i)].tickets@.contains(Some(ticket)),
    ensures
        exists|k: int|
            0 <= k < acked_traces(m, newest, bits, n, now).len()
                && #[trigger] acked_traces(m, newest, bits, n, now)[k].0.contains(Some(ticket)),
    decreases n,
{
    let prev = acked_traces(m, newest, bits, (n - 1) as nat, now);
    let res = acked_traces(m, newest, bits, n, now);
    if i < n - 1 {
        lemma_acked_keeps_ticket(m, newest, bits, (n - 1) as nat, now, i, ticket);
        let k = choose|k: int| 0 <= k < prev.len() && #[trigger] prev[k].0.contains(Some(ticket));
        assert(res[k] == prev[k]);
    } else {
        lemma_traced(m[wsub(newest, i)].tickets@, ticket);
        assert(res[prev.len() as int].0.contains(Some(ticket)));
    }
}

/// Finished traces extended by `extra` keep each finished trace's tickets and add those of
/// `extra`.
proof fn lemma_finished_extend(
    o: Seq<FinishedTrace>,
    n: Seq<FinishedTrace>,
    extra: Seq<(Seq<Option<u64>>, PacketTrace)>,
    ticket: u64,
)
    requires
        finished_views(n) == finished_views(o) + extra,
        (exists|i: int| 0 <= i < o.len() && #[trigger] o[i].tickets@.contains(Some(ticket)))
            || (exists|k: int| 0 <= k < extra.len() && #[trigger] extra[k].0.contains(Some(ticket))),
    ensures
        exists|i: int| 0 <= i < n.len() && #[trigger] n[i].tickets@.contains(Some(ticket)),
{
    assert(finished_views(n).len() == n.len());
    if exists|i: int| 0 <= i < o.len() && #[trigger] o[i].tickets@.contains(Some(ticket)) {
        let i = choose|i: int| 0 <= i < o.len() && #[trigger] o[i].tickets@.contains(Some(ticket));
        assert(finished_views(n)[i] == finished_views(o)[i]);
        assert(n[i].tickets@.contains(Some(ticket)));
    } else {
        let k = choose|k: int| 0 <= k < extra.len() && #[trigger] extra[k].0.contains(Some(ticket));
        let i = o.len() + k;
        assert(finished_views(n)[i] == extra[k]);
        assert(n[i].tickets@.contains(Some(ticket)));
    }
}

/// A packet among the `n` indices from `start` on that holds `ticket` is found.
proof fn lemma_find_pending_some(m: Map<u16, PendingFrame>, start: u16, ticket: u64, n: nat, k: int)
    requires
        0 <= k < n,
        m.contains_key(wadd(start, k)),
        m[wadd(start, k)].tickets@.contains(Some(ticket)),
    ensures
        find_pending(m, start, ticket, n) is Some,
    decreases n,
{
    if k < n - 1 {
        lemma_find_pending_some(m, start, ticket, (n - 1) as nat, k);
    }
}

/// A finished trace among the first `n` that holds `ticket` is found.
proof fn lemma_find_finished_some(fs: Seq<(Seq<Option<u64>>, PacketTrace)>, ticket: u64, n: nat, i: int)
    requires
        0 <= i < n <= fs.len(),
        fs[i].0.contains(Some(ticket)),
    ensures
        find_finished(fs, ticket, n) is Some,
    decreases n,
{
    if i < n - 1 {
        lemma_find_finished_some(fs, ticket, (n - 1) as nat, i);
    }
}

/// Where the queue and the tickets stay, the finished traces grow by `extra`, and each pending
/// packet that holds a ticket stays with its tickets or leaves that ticket in `extra`, the
/// tickets of `o` carry over to `n`.
#[verifier::rlimit(30)]
proof fn lemma_follow_pending<S, R>(
    o: ReliableOrdered<S, R>,
    n: ReliableOrdered<S, R>,
    extra: Seq<(Seq<Option<u64>>, PacketTrace)>,
)
    requires
        n.send_tickets == o.send_tickets,
        n.next_ticket == o.next_ticket,
        finished_views(n.finished@) == finished_views(o.finished@) + extra,
        forall|x: u16, t: u64|
            o.pending@.contains_key(x) && #[trigger] o.pending@[x].tickets@.contains(Some(t)) ==> (
            n.pending@.contains_key(x) && n.pending@[x].tickets@ == o.pending@[x].tickets@) || (
            exists|k: int| 0 <= k < extra.len() && #[trigger] extra[k].0.contains(Some(t))),
        forall|x: u16| #[trigger] n.pending@.contains_key(x) ==> o.pending@.contains_key(x)
            && n.pending@[x].tickets@ == o.pending@[x].tickets@,
        forall|i: int|
            0 <= i < extra.len() ==> {
                let id = (#[trigger] extra[i]).1.id;
                &&& o.pending@.contains_key(id)
                &&& extra[i].0 == o.pending@[id].tickets@
                &&& !n.pending@.contains_key(id)
            },
        forall|i1: int, i2: int|
            0 <= i1 < i2 < extra.len() ==> (#[trigger] extra[i1]).1.id != (#[trigger] extra[i2]).1.id,
    ensures
        n.tickets_follow(&o),
{
    let f0 = o.finished@.len() as int;
    let back = |p: TicketPlace, t: u64|
        match p {
            TicketPlace::Finished(i) => if i < f0 {
                TicketPlace::Finished(i)
            } else {
                TicketPlace::Pending(extra[i - f0].1.id)
            },
            _ => p,
        };
    let nf = finished_views(n.finished@);
    let of = finished_views(o.finished@);
    assert(nf.len() == of.len() + extra.len());
    assert forall|p: TicketPlace, t: u64| #[trigger] n.holds_at(p, t) implies o.holds_at(
        back(p, t),
        t,
    ) by {
        if let TicketPlace::Finished(i) = p {
            if i < f0 {
                assert(nf[i] == of[i]);
            } else {
                assert(nf[i] == extra[i - f0]);
            }
        }
    }
    assert forall|p1: TicketPlace, p2: TicketPlace, t: u64|
        #[trigger] n.holds_at(p1, t) && #[trigger] n.holds_at(p2, t) && back(p1, t) == back(p2, t)
        implies p1 == p2 by {
        if let TicketPlace::Finished(i1) = p1 {
            if let TicketPlace::Finished(i2) = p2 {
                if i1 >= f0 && i2 >= f0 && i1 != i2 {
                    if i1 < i2 {
                        assert(extra[i1 - f0].1.id != extra[i2 - f0].1.id);
                    } else {
                        assert(extra[i2 - f0].1.id != extra[i1 - f0].1.id);
                    }
                }
            } else if let TicketPlace::Pending(x) = p2 {
                if i1 >= f0 {
                    assert(extra[i1 - f0].1.id == x);
                }
            }
        } else if let TicketPlace::Pending(x) = p1 {
            if let TicketPlace::Finished(i2) = p2 {
                if i2 >= f0 {
                    assert(extra[i2 - f0].1.id == x);
                }
            }
        }
    }
    lemma_wf_transfer(o, n, back);
    assert forall|t: u64| #[trigger] o.holds_ticket(t) implies n.holds_ticket(t) by {
        if o.send_tickets@.contains(Some(t)) {
        } else if exists|x: u16|
            #[trigger] o.pending@.contains_key(x) && o.pending@[x].tickets@.contains(Some(t)) {
            let x = choose|x: u16|
                #[trigger] o.pending@.contains_key(x) && o.pending@[x].tickets@.contains(Some(t));
            if n.pending@.contains_key(x) && n.pending@[x].tickets@ == o.pending@[x].tickets@ {
                assert(n.pending@.contains_key(x) && n.pending@[x].tickets@.contains(Some(t)));
            } else {
                lemma_finished_extend(o.finished@, n.finished@, extra, t);
            }
        } else {
            lemma_finished_extend(o.finished@, n.finished@, extra, t);
        }
    }
}

/// The messages before chunk `b` are at least those before chunk `a`, and chunk `b` follows
/// right after the messages before it.
proof fn lemma_take_flatten_len<S>(chunks: Seq<Seq<S>>, a: int, b: int)
    requires
        0 <= a <= b <= chunks.len(),
    ensures
        chunks.take(a).flatten_alt().len() <= chunks.take(b).flatten_alt().len(),
        b < chunks.len() ==> chunks.take(b + 1).flatten_alt().len() == chunks.take(
            b,
        ).flatten_alt().len() + chunks[b].len(),
    decreases b - a,
{
    if b < chunks.len() {
        assert(chunks.take(b + 1).drop_last() =~= chunks.take(b));
    }
    if a < b {
        lemma_take_flatten_len(chunks, a, b - 1);
        assert(chunks.take(b).drop_last() =~= chunks.take(b - 1));
    }
}

/// Putting the queued messages into packets keeps the tickets in order: each queued ticket
/// either stays queued or moves into the one new packet that takes its message.
#[verifier::rlimit(40)]
proof fn lemma_flushed_places<S: ByteRepr, R>(
    n: ReliableOrdered<S, R>,
    o: ReliableOrdered<S, R>,
    ack: PacketAck,
    salt: u32,
    version: u32,
)
    requires
        o.wf(),
        ordered_flushed(n, o, ack, salt, version),
    ensures
        o.tickets_wf() ==> n.tickets_wf(),
{
    let m0 = o.pending@;
    let newest0 = o.pending.newest();
    let chunks = packed(o.send_queue@, free_run(m0, wsub(newest0, 31), 32));
    let p = chunks.len() as int;
    let used = chunks.flatten_alt().len() as int;
    let t0 = o.send_tickets@;
    lemma_free_run_le(m0, wsub(newest0, 31), 32);
    lemma_packed_len(o.send_queue@, free_run(m0, wsub(newest0, 31), 32));
    assert(o.send_queue@.len() == used + n.send_queue@.len());
    assert(chunks.take(p) =~= chunks);
    let st = |j: int| chunks.take(j).flatten_alt().len() as int;
    let back = |q: TicketPlace, t: u64|
        match q {
            TicketPlace::Queued(a) => TicketPlace::Queued(a + used),
            TicketPlace::Pending(x) => if m0.contains_key(x) {
                TicketPlace::Pending(x)
            } else {
                let j = dist(x, newest0) - 1;
                TicketPlace::Queued(
                    choose|a: int| st(j) <= a < st(j) + chunks[j].len() && t0[a] == Some(t),
                )
            },
            TicketPlace::Finished(i) => TicketPlace::Finished(i),
        };
    assert forall|q: TicketPlace, t: u64| #[trigger] n.holds_at(q, t) implies o.holds_at(
        back(q, t),
        t,
    ) && (q is Pending && !m0.contains_key(q->Pending_0) ==> ({
        let j = dist(q->Pending_0, newest0) - 1;
        let a = back(q, t)->Queued_0;
        &&& 0 <= j < p
        &&& st(j) <= a < st(j) + chunks[j].len()
        &&& a < used
    })) by {
        match q {
            TicketPlace::Queued(a) => {
                assert(n.send_tickets@[a] == t0[a + used]);
            },
            TicketPlace::Pending(x) => {
                if !m0.contains_key(x) {
                    let j = dist(x, newest0) - 1;
                    crate::ring_buffer::lemma_wadd_dist(x, newest0);
                    assert(x == wadd(newest0, j + 1));
                    let pp = n.pending@[wadd(newest0, j + 1)];
                    lemma_take_flatten_len(chunks, j + 1, p);
                    lemma_take_flatten_len(chunks, j, j);
                    assert(pp.tickets@ == t0.subrange(st(j), st(j) + chunks[j].len()));
                    let r = choose|r: int| 0 <= r < pp.tickets@.len() && pp.tickets@[r] == Some(t);
                    assert(t0[st(j) + r] == Some(t));
                    let a = choose|a: int| st(j) <= a < st(j) + chunks[j].len() && t0[a] == Some(t);
                    assert(a < used);
                }
            },
            TicketPlace::Finished(i) => {},
        }
    }
    assert forall|q1: TicketPlace, q2: TicketPlace, t: u64|
        #[trigger] n.holds_at(q1, t) && #[trigger] n.holds_at(q2, t) && back(q1, t) == back(q2, t)
        implies q1 == q2 by {
        if let TicketPlace::Pending(x1) = q1 {
            if let TicketPlace::Pending(x2) = q2 {
                if !m0.contains_key(x1) && !m0.contains_key(x2) {
                    let j1 = dist(x1, newest0) - 1;
                    let j2 = dist(x2, newest0) - 1;
                    crate::ring_buffer::lemma_wadd_dist(x1, newest0);
                    crate::ring_buffer::lemma_wadd_dist(x2, newest0);
                    if j1 < j2 {
                        lemma_take_flatten_len(chunks, j1 + 1, j2);
                        lemma_take_flatten_len(chunks, j1, j1);
                    } else if j2 < j1 {
                        lemma_take_flatten_len(chunks, j2 + 1, j1);
                        lemma_take_flatten_len(chunks, j2, j2);
                    }
                }
            }
        }
    }
    lemma_wf_transfer(o, n, back);
}

/// Putting the queued messages into packets carries the tickets of `o` over to `n`: a queued
/// ticket either stays queued or lands in the new packet that takes its message.
proof fn lemma_flushed_follow<S: ByteRepr, R>(
    n: ReliableOrdered<S, R>,
    o: ReliableOrdered<S, R>,
    ack: PacketAck,
    salt: u32,
    version: u32,
)
    requires
        o.wf(),
        ordered_flushed(n, o, ack, salt, version),
    ensures
        n.tickets_follow(&o),
{
    let m0 = o.pending@;
    let newest0 = o.pending.newest();
    let chunks = packed(o.send_queue@, free_run(m0, wsub(newest0, 31), 32));
    let p = chunks.len();
    let used = chunks.flatten_alt().len() as int;
    assert(o.send_queue@.len() == used + n.send_queue@.len());
    lemma_tickets_skip(o.send_tickets@, used);
    lemma_free_run_le(m0, wsub(newest0, 31), 32);
    lemma_packed_len(o.send_queue@, free_run(m0, wsub(newest0, 31), 32));
    lemma_flushed_places(n, o, ack, salt, version);
    assert forall|t: u64| #[trigger] o.holds_ticket(t) implies n.holds_ticket(t) by {
        if o.send_tickets@.contains(Some(t)) {
            let q = choose|q: int| 0 <= q < o.send_tickets@.len() && o.send_tickets@[q] == Some(t);
            if q >= used {
                assert(n.send_tickets@[q - used] == Some(t));
            } else {
                let j = lemma_in_chunk(chunks, q);
                let start = chunks.take(j).flatten_alt().len() as int;
                let x = wadd(newest0, j + 1);
                assert(wadd(newest0, 0) == newest0);
                lemma_dist_wadd(newest0, j + 1, 0);
                assert(n.pending@.contains_key(x));
                let pp = n.pending@[x];
                assert(pp.tickets@ == o.send_tickets@.subrange(start, start + chunks[j].len()));
                assert(pp.tickets@[q - start] == Some(t));
                assert(n.pending@.contains_key(x) && n.pending@[x].tickets@.contains(Some(t)));
            }
        } else if exists|x: u16|
            #[trigger] o.pending@.contains_key(x) && o.pending@[x].tickets@.contains(Some(t)) {
            let x = choose|x: u16|
                #[trigger] o.pending@.contains_key(x) && o.pending@[x].tickets@.contains(Some(t));
            assert(n.pending@.contains_key(x) && n.pending@[x].tickets@.contains(Some(t)));
        } else {
            let i = choose|i: int|
                0 <= i < o.finished@.len() && #[trigger] o.finished@[i].tickets@.contains(Some(t));
            assert(n.finished@[i].tickets@.contains(Some(t)));
        }
    }
}

/// Appending `x` to the tickets `s` queues no ticket below `bound` that `s` did not, where `x`
/// is not such a ticket.
proof fn lemma_tickets_push(s: Seq<Option<u64>>, x: Option<u64>, bound: u64)
    requires
        x is None || x->0 >= bound,
    ensures
        forall|t: u64| t < bound && #[trigger] s.push(x).contains(Some(t)) ==> s.contains(Some(t)),
{
    assert forall|t: u64| t < bound && #[trigger] s.push(x).contains(Some(t)) implies s.contains(
        Some(t),
    ) by {
        let i = choose|i: int| 0 <= i < s.len() + 1 && s.push(x)[i] == Some(t);
        assert(i < s.len());
        assert(s[i] == Some(t));
    }
}

/// Dropping the first `k` tickets of `s` queues no ticket that `s` did not.
proof fn lemma_tickets_skip(s: Seq<Option<u64>>, k: int)
    requires
        0 <= k <= s.len(),
    ensures
        forall|t: u64| #[trigger] s.skip(k).contains(Some(t)) ==> s.contains(Some(t)),
{
    assert forall|t: u64| #[trigger] s.skip(k).contains(Some(t)) implies s.contains(Some(t)) by {
        let i = choose|i: int| 0 <= i < s.len() - k && s.skip(k)[i] == Some(t);
        assert(s[i + k] == Some(t));
    }
}

impl<S, R> ReliableOrdered<S, R> {
    /// The invariant: both ring buffers are well formed and every queued message has a
    /// priority.
    pub open spec fn wf(&self) -> bool {
        &&& self.pending.wf()
        &&& self.recv_buffer.wf()
        &&& self.send_queue@.len() == self.send_priorities@.len()
        &&& self.send_queue@.len() == self.send_tickets@.len()
    }

    /// Whether a queued message, a pending packet or a finished trace holds `ticket`.
    pub open spec fn holds_ticket(&self, ticket: u64) -> bool {
        ||| self.send_tickets@.contains(Some(ticket))
        ||| exists|x: u16|
            #[trigger] self.pending@.contains_key(x) && self.pending@[x].tickets@.contains(
                Some(ticket),
            )
        ||| exists|i: int|
            0 <= i < self.finished@.len() && #[trigger] self.finished@[i].tickets@.contains(
                Some(ticket),
            )
    }

    /// Whether the place `p` holds `ticket`.
    pub open spec fn holds_at(&self, p: TicketPlace, ticket: u64) -> bool {
        held_at(self.send_tickets@, self.pending@, finished_views(self.finished@), p, ticket)
    }

    /// What [`Self::spec_message_state`] should report of a message whose ticket the place `p`
    /// holds: queued, or the id, priority and state of its pending packet or finished trace.
    pub open spec fn place_state(&self, p: TicketPlace) -> MessageState {
        match p {
            TicketPlace::Queued(_) => MessageState::Queued,
            TicketPlace::Pending(x) => MessageState::Packeted {
                packet_id: x,
                packet_priority: self.pending@[x].priority,
                state: self.pending@[x].state,
            },
            TicketPlace::Finished(i) => {
                let tr = finished_views(self.finished@)[i].1;
                MessageState::Packeted {
                    packet_id: tr.id,
                    packet_priority: tr.priority,
                    state: tr.state,
                }
            },
        }
    }

    /// The tickets are in order: only tickets handed out are held, and each by one place
    /// only.
    pub open spec fn tickets_wf(&self) -> bool {
        &&& forall|t: u64| #[trigger] self.holds_ticket(t) ==> t < self.next_ticket
        &&& forall|t: u64|
            #[trigger] single_place(
                self.send_tickets@,
                self.pending@,
                finished_views(self.finished@),
                t,
            )
    }

    /// How the tickets of `o` carry over to `self`: tickets keep counting up, no message goes
    /// back into the queue (every ticket handed out in `o` that a message queued in `self`
    /// holds was held by a message queued in `o`), no ticket held in `o` is lost, and tickets
    /// in order stay in order.
    pub open spec fn tickets_follow(&self, o: &Self) -> bool {
        &&& o.next_ticket <= self.next_ticket
        &&& forall|t: u64|
            t < o.next_ticket && #[trigger] self.send_tickets@.contains(Some(t))
                ==> o.send_tickets@.contains(Some(t))
        &&& forall|t: u64| #[trigger] o.holds_ticket(t) ==> self.holds_ticket(t)
        &&& o.tickets_wf() ==> self.tickets_wf()
    }

    /// Nothing queued, pending or received.
    pub fn new() -> (r: Self)
        ensures
            r.wf(),
            r.send_queue@.len() == 0,
            r.recv_queue@.len() == 0,
            r.next_ticket == 0,
            r.finished@.len() == 0,
            r.pending@ == Map::<u16, PendingFrame>::empty(),
            r.recv_buffer@ == Map::<u16, Vec<R>>::empty(),
            r.pending.newest() == u16::MAX,
            r.recv_buffer.newest() == u16::MAX,
            r.read_packet_head == 0,
            r.tickets_wf(),
    {
        let r = ReliableOrdered {
            send_queue: Vec::new(),
            send_priorities: Vec::new(),
            send_tickets: Vec::new(),
            next_ticket: 0,
            finished: Vec::new(),
            recv_queue: VecDeque::new(),
            pending: RingBuffer::new(),
            recv_buffer: RingBuffer::new(),
            read_packet_head: 0,
        };
        proof {
            assert forall|t: u64| #[trigger] r.holds_ticket(t) implies t < r.next_ticket by {
                let p = lemma_holder(r, t);
            }
            assert forall|t: u64|
                #[trigger] single_place(
                    r.send_tickets@,
                    r.pending@,
                    finished_views(r.finished@),
                    t,
                ) by {
                assert forall|p1: TicketPlace, p2: TicketPlace|
                    #[trigger] held_at(
                        r.send_tickets@,
                        r.pending@,
                        finished_views(r.finished@),
                        p1,
                        t,
                    ) && #[trigger] held_at(
                        r.send_tickets@,
                        r.pending@,
                        finished_views(r.finished@),
                        p2,
                        t,
                    ) implies p1 == p2 by {
                    assert(finished_views(r.finished@).len() == 0);
                }
            }
        }
        r
    }

    /// Queue `message` with `priority`.
    pub fn queue_message(&mut self, message: S, priority: Priority)
        requires
            old(self).wf(),
        ensures
            final(self).tickets_follow(old(self)),
            final(self).wf(),
            final(self).send_queue@ == old(self).send_queue@.push(message),
            final(self).send_priorities@ == old(self).send_priorities@.push(priority),
            final(self).send_tickets@ == old(self).send_tickets@.push(None),
            final(self).next_ticket == old(self).next_ticket,
            final(self).finished == old(self).finished,
            final(self).recv_queue == old(self).recv_queue,
            final(self).pending == old(self).pending,
            final(self).recv_buffer == old(self).recv_buffer,
            final(self).read_packet_head == old(self).read_packet_head,
    {
        proof {
            lemma_tickets_push(old(self).send_tickets@, None, old(self).next_ticket);
            lemma_tickets_push_keeps(old(self).send_tickets@, None);
        }
        self.send_queue.push(message);
        self.send_priorities.push(priority);
        self.send_tickets.push(None);
        proof {
            lemma_push_tickets(*old(self), *self, None);
        }
    }

    /// Queue `message` with `priority` and a trace: it gets the next ticket, by which
    /// [`Self::message_state`] tells what became of it. `None`, and nothing queued, once every
    /// ticket has been handed out.
    pub fn queue_message_with_trace(&mut self, message: S, priority: Priority) -> (r: Option<
        MessageTrace,
    >)
        requires
            old(self).wf(),
        ensures
            final(self).tickets_follow(old(self)),
            final(self).wf(),
            old(self).next_ticket == u64::MAX ==> r is None && *final(self) == *old(self),
            old(self).next_ticket < u64::MAX ==> {
                &&& r == Some(MessageTrace { ticket: old(self).next_ticket })
                &&& final(self).send_queue@ == old(self).send_queue@.push(message)
                &&& final(self).send_priorities@ == old(self).send_priorities@.push(priority)
                &&& final(self).send_tickets@ == old(self).send_tickets@.push(
                    Some(old(self).next_ticket),
                )
                &&& final(self).next_ticket == old(self).next_ticket + 1
                &&& final(self).finished == old(self).finished
                &&& final(self).recv_queue == old(self).recv_queue
                &&& final(self).pending == old(self).pending
                &&& final(self).recv_buffer == old(self).recv_buffer
                &&& final(self).read_packet_head == old(self).read_packet_head
            },
    {
        proof {
            lemma_tickets_push(
                old(self).send_tickets@,
                Some(old(self).next_ticket),
                old(self).next_ticket,
            );
            lemma_tickets_push_keeps(old(self).send_tickets@, Some(old(self).next_ticket));
        }
        if self.next_ticket == u64::MAX {
            proof {
                lemma_same_tickets(*old(self), *self);
            }
            return None;
        }
        let ticket = self.next_ticket;
        self.send_queue.push(message);
        self.send_priorities.push(priority);
        self.send_tickets.push(Some(ticket));
        self.next_ticket = ticket + 1;
        proof {
            lemma_push_tickets(*old(self), *self, Some(ticket));
        }
        Some(MessageTrace { ticket })
    }

    /// What became of the message queued with `ticket`: queued while it waits; once it is
    /// in a packet, that packet's id, priority and state, found among the pending packets
    /// (oldest first) and then among the finished traces (oldest first); `None` where the
    /// ticket is found nowhere.
    pub open spec fn spec_message_state(&self, ticket: u64) -> Option<MessageState> {
        if self.send_tickets@.contains(Some(ticket)) {
            Some(MessageState::Queued)
        } else {
            match find_pending(self.pending@, wsub(self.pending.newest(), 31), ticket, 32) {
                Some(idx) => Some(
                    MessageState::Packeted {
                        packet_id: idx,
                        packet_priority: self.pending@[idx].priority,
                        state: self.pending@[idx].state,
                    },
                ),
                None => {
                    let fs = finished_views(self.finished@);
                    match find_finished(fs, ticket, fs.len()) {
                        Some(t) => Some(
                            MessageState::Packeted {
                                packet_id: t.id,
                                packet_priority: t.priority,
                                state: t.state,
                            },
                        ),
                        None => None,
                    }
                },
            }
        }
    }

    /// What became of the message traced by `trace`; see [`Self::spec_message_state`].
    pub fn message_state(&self, trace: &MessageTrace) -> (r: Option<MessageState>)
        requires
            self.wf(),
        ensures
            r == self.spec_message_state(trace.ticket),
    {
        let ticket = trace.ticket;
        if has_ticket(&self.send_tickets, ticket) {
            return Some(MessageState::Queued);
        }
        let start = self.pending.get_newest_index().wrapping_sub(31);
        let mut k: u16 = 0;
        while k < 32
            invariant
                self.wf(),
                start == wsub(self.pending.newest(), 31),
                ticket == trace.ticket,
                !self.send_tickets@.contains(Some(ticket)),
                k <= 32,
                find_pending(self.pending@, start, ticket, k as nat) is None,
            decreases 32 - k,
        {
            let idx = start.wrapping_add(k);
            match self.pending.get(idx) {
                Some(pp) => {
                    if has_ticket(&pp.tickets, ticket) {
                        assert(find_pending(self.pending@, start, ticket, (k + 1) as nat) == Some(
                            idx,
                        ));
                        proof {
                            lemma_find_pending_stays(
                                self.pending@,
                                start,
                                ticket,
                                (k + 1) as nat,
                                32,
                            );
                        }
                        return Some(
                            MessageState::Packeted {
                                packet_id: idx,
                                packet_priority: pp.priority,
                                state: pp.state,
                            },
                        );
                    }
                },
                None => {},
            }
            k = k + 1;
        }
        let ghost fs = finished_views(self.finished@);
        let mut i: usize = 0;
        while i < self.finished.len()
            invariant
                fs == finished_views(self.finished@),
                ticket == trace.ticket,
                !self.send_tickets@.contains(Some(ticket)),
                find_pending(self.pending@, wsub(self.pending.newest(), 31), ticket, 32) is None,
                i <= self.finished@.len(),
                find_finished(fs, ticket, i as nat) is None,
            decreases self.finished@.len() - i,
        {
            let f = &self.finished[i];
            if has_ticket(&f.tickets, ticket) {
                assert(fs[i as int] == (f.tickets@, f.trace));
                assert(find_finished(fs, ticket, (i + 1) as nat) == Some(f.trace));
                proof {
                    lemma_find_finished_stays(fs, ticket, (i + 1) as nat, fs.len());
                }
                return Some(
                    MessageState::Packeted {
                        packet_id: f.trace.id,
                        packet_priority: f.trace.priority,
                        state: f.trace.state,
                    },
                );
            }
            assert(fs[i as int] == (f.tickets@, f.trace));
            i = i + 1;
        }
        None
    }

    /// The next message received, in order, if any.
    pub fn next(&mut self) -> (r: Option<R>)
        ensures
            final(self).tickets_follow(old(self)),
            *final(self) == (ReliableOrdered { recv_queue: final(self).recv_queue, ..*old(self) }),
            old(self).recv_queue@.len() == 0 ==> r is None && final(self).recv_queue@ == old(
                self,
            ).recv_queue@,
            old(self).recv_queue@.len() > 0 ==> r == Some(old(self).recv_queue@[0])
                && final(self).recv_queue@ == old(self).recv_queue@.drop_first(),
    {
        let r = self.recv_queue.pop_front();
        proof {
            lemma_same_tickets(*old(self), *self);
        }
        r
    }

    /// Whether messages are queued or packets wait for their acknowledgement.
    pub fn has_work(&self) -> (r: bool)
        requires
            self.wf(),
        ensures
            r == !(self.send_queue@.len() == 0 && self.pending@.is_empty()),
    {
        let empty = self.pending.is_empty();
        proof {
            crate::communicator::lemma_empty_count(&self.pending);
        }
        !(self.send_queue.len() == 0 && empty)
    }

    /// What taking in the received packet `sequence_id` holding `messages` did, turning `o`
    /// into `self` with result `r`; see [`Self::read_packet`].
    pub open spec fn packet_read(
        &self,
        o: &Self,
        sequence_id: u16,
        messages: Vec<R>,
        r: Result<bool, Error>,
    ) -> bool {
        let newest = o.recv_buffer.newest();
        if o.recv_buffer@.contains_key(sequence_id) {
            r == Ok::<bool, Error>(true) && *self == *o
        } else if spec_too_old(newest, sequence_id) {
            r == Err::<bool, Error>(Error::PacketTooOld { sequence_id, newest_id: newest })
                && *self == *o
        } else {
            let ins = spec_insert(o.recv_buffer@, newest, sequence_id, messages, 32);
            let m = vec_views(ins.1);
            let head = o.read_packet_head;
            let k = run_len(m, head, 32);
            &&& r == Ok::<bool, Error>(false)
            &&& self.recv_buffer.newest() == ins.0
            &&& vec_views(self.recv_buffer@) == drain_run(m, head, k)
            &&& self.read_packet_head == wadd(head, k as int)
            &&& self.recv_queue@ == o.recv_queue@ + run_msgs(m, head, k)
            &&& self.send_queue == o.send_queue
            &&& self.send_priorities == o.send_priorities
            &&& self.send_tickets == o.send_tickets
            &&& self.next_ticket == o.next_ticket
            &&& self.finished == o.finished
            &&& self.pending == o.pending
        }
    }

    /// Take in the received packet `sequence_id` holding `messages`. `Ok(true)` if it was
    /// received before (nothing changes); [`Error::PacketTooOld`] if it is too old (nothing
    /// changes); otherwise `Ok(false)`: the packet is stored and the messages of the packets
    /// from the read head on are handed out, in order, up to the first missing packet.
    pub fn read_packet(&mut self, sequence_id: u16, messages: Vec<R>) -> (r: Result<bool, Error>)
        requires
            old(self).wf(),
        ensures
            final(self).tickets_follow(old(self)),
            final(self).wf(),
            final(self).send_queue == old(self).send_queue,
            final(self).send_priorities == old(self).send_priorities,
            final(self).send_tickets == old(self).send_tickets,
            final(self).next_ticket == old(self).next_ticket,
            final(self).finished == old(self).finished,
            final(self).pending == old(self).pending,
            final(self).packet_read(old(self), sequence_id, messages, r),
    {
        if self.recv_buffer.get(sequence_id).is_some() {
            proof {
                lemma_same_tickets(*old(self), *self);
            }
            return Ok(true);
        }
        let newest = self.recv_buffer.get_newest_index();
        if wrapping_gt(newest.wrapping_sub(31), sequence_id, 64) {
            proof {
                lemma_same_tickets(*old(self), *self);
            }
            return Err(Error::PacketTooOld { sequence_id, newest_id: newest });
        }
        self.recv_buffer.insert(sequence_id, messages);
        deliver_run(&mut self.recv_buffer, &mut self.read_packet_head, &mut self.recv_queue);
        proof {
            lemma_same_tickets(*old(self), *self);
        }
        Ok(false)
    }

    /// The acknowledgement for the packets received: the newest id and one bit for each of the
    /// 32 ids up to it.
    pub fn get_ack(&self) -> (r: (u16, u32))
        requires
            self.wf(),
        ensures
            r.0 == self.recv_buffer.newest(),
            ack_bits_of(r.1, self.recv_buffer@, self.recv_buffer.newest()),
    {
        (self.recv_buffer.get_newest_index(), ack_bits(&self.recv_buffer))
    }

    /// Drop the pending packets that `ack_bits` acknowledges, counting back from
    /// `newest_received`; the acknowledgement arrived at `now_ms`. Each traced packet among
    /// them is kept, acknowledged, with the finished traces; see [`acked_traces`].
    pub fn acknowledge(&mut self, newest_received: u16, ack_bits: u32, now_ms: u64)
        requires
            old(self).wf(),
        ensures
            final(self).tickets_follow(old(self)),
            final(self).wf(),
            final(self).pending.newest() == old(self).pending.newest(),
            final(self).pending@ == old(self).pending@.remove_keys(
                acked_indices(newest_received, ack_bits),
            ),
            finished_views(final(self).finished@) == finished_views(old(self).finished@)
                + acked_traces(old(self).pending@, newest_received, ack_bits, 32, now_ms),
            final(self).send_queue == old(self).send_queue,
            final(self).send_priorities == old(self).send_priorities,
            final(self).send_tickets == old(self).send_tickets,
            final(self).next_ticket == old(self).next_ticket,
            final(self).recv_queue == old(self).recv_queue,
            final(self).recv_buffer == old(self).recv_buffer,
            final(self).read_packet_head == old(self).read_packet_head,
    {
        let ghost m0 = self.pending@;
        let mut i: u32 = 0;
        proof {
            assert(self.pending@ =~= m0.remove_keys(
                Set::new(|j: u16| exists|k: int| 0 <= k < 0 && #[trigger] bit_set(ack_bits, k) && j == wsub(newest_received, k)),
            ));
            assert(finished_views(self.finished@) =~= finished_views(old(self).finished@)
                + Seq::<(Seq<Option<u64>>, PacketTrace)>::empty());
        }
        while i < 32
            invariant
                self.pending.wf(),
                self.recv_buffer.wf(),
                self.send_queue@.len() == self.send_priorities@.len(),
                self.send_queue@.len() == self.send_tickets@.len(),
                self.pending.newest() == old(self).pending.newest(),
                m0 == old(self).pending@,
                i <= 32,
                self.pending@ == m0.remove_keys(
                    Set::new(|j: u16| exists|k: int| 0 <= k < i && #[trigger] bit_set(ack_bits, k) && j == wsub(newest_received, k)),
                ),
                finished_views(self.finished@) == finished_views(old(self).finished@)
                    + acked_traces(m0, newest_received, ack_bits, i as nat, now_ms),
                self.send_queue == old(self).send_queue,
                self.send_priorities == old(self).send_priorities,
                self.send_tickets == old(self).send_tickets,
                self.next_ticket == old(self).next_ticket,
                self.recv_queue == old(self).recv_queue,
                self.recv_buffer == old(self).recv_buffer,
                self.read_packet_head == old(self).read_packet_head,
            decreases 32 - i,
        {
            let set = ack_bits & (1u32 << i) != 0;
            proof {
                assert(set == bit_set(ack_bits, i as int)) by {
                    assert((ack_bits & (1u32 << i) != 0) == ((ack_bits >> i) & 1 == 1)) by (bit_vector)
                        requires
                            i < 32,
                    ;
                }
            }
            let idx = newest_received.wrapping_sub(i as u16);
            let ghost fin = finished_views(self.finished@);
            let ghost before = self.pending@;
            proof {
                assert(idx == wsub(newest_received, i as int));
                assert forall|k: int| 0 <= k < i implies wsub(newest_received, k) != idx by {}
                assert(before.contains_key(idx) == m0.contains_key(idx));
                if m0.contains_key(idx) {
                    assert(before[idx] == m0[idx]);
                }
            }
            if set {
                match self.pending.take(idx) {
                    Some(pp) => {
                        if any_traced(&pp.tickets) {
                            let trace = PacketTrace {
                                id: idx,
                                priority: pp.priority,
                                state: ack_state(pp.state, now_ms),
                            };
                            let ghost tv = pp.tickets@;
                            self.finished.push(FinishedTrace { tickets: pp.tickets, trace });
                            proof {
                                assert(finished_views(self.finished@) =~= fin.push((tv, trace)));
                            }
                        }
                    },
                    None => {},
                }
            }
            proof {
                assert(self.pending@ =~= m0.remove_keys(
                    Set::new(|j: u16| exists|k: int| 0 <= k < i + 1 && #[trigger] bit_set(ack_bits, k) && j == wsub(newest_received, k)),
                ));
            }
            i = i + 1;
        }
        proof {
            assert(self.pending@ =~= m0.remove_keys(acked_indices(newest_received, ack_bits)));
            let extra = acked_traces(m0, newest_received, ack_bits, 32, now_ms);
            assert forall|x: u16, t: u64|
                m0.contains_key(x) && #[trigger] m0[x].tickets@.contains(Some(t)) implies (
                self.pending@.contains_key(x) && self.pending@[x].tickets@ == m0[x].tickets@) || (
                exists|k: int| 0 <= k < extra.len() && #[trigger] extra[k].0.contains(Some(t))) by {
                if acked_indices(newest_received, ack_bits).contains(x) {
                    let b = choose|b: int| #[trigger] bit_set(ack_bits, b) && x == wsub(newest_received, b);
                    lemma_acked_keeps_ticket(m0, newest_received, ack_bits, 32, now_ms, b, t);
                }
            }
            lemma_acked_shape(m0, newest_received, ack_bits, 32, now_ms);
            lemma_follow_pending(*old(self), *self, extra);
        }
    }

    /// Reserve the next packet: its sequence id and the acknowledgement it carries, or
    /// [`Error::PacketSendBufferFull`] if sending it would drop a pending packet.
    pub fn write_packet(&self) -> (r: Result<(u16, PartialPacketAck), Error>)
        requires
            self.wf(),
        ensures
            self.pending@.contains_key(wsub(self.pending.newest(), 31)) ==> r == Err::<
                (u16, PartialPacketAck),
                Error,
            >(Error::PacketSendBufferFull),
            !self.pending@.contains_key(wsub(self.pending.newest(), 31)) ==> (r matches Ok(
                (seq, ack),
            ) && seq == wadd(self.pending.newest(), 1) && ack.newest_received
                == self.recv_buffer.newest() && ack_bits_of(
                ack.ack_bits,
                self.recv_buffer@,
                self.recv_buffer.newest(),
            )),
    {
        if self.pending.push_will_override() {
            return Err(Error::PacketSendBufferFull);
        }
        let sequence_id = self.pending.get_next_index();
        let partial_ack = PartialPacketAck::new(self.get_ack());
        Ok((sequence_id, partial_ack))
    }

    /// Record the packet reserved by [`Self::write_packet`] as sent in the frame `frame`, with
    /// `priority`: it is pending under the next sequence id, which is returned.
    pub fn commit_packet(
        &mut self,
        frame: Vec<u8>,
        priority: Priority,
        resend: &FixedResend,
    ) -> (r: u16)
        requires
            old(self).wf(),
        ensures
            final(self).wf(),
            r == wadd(old(self).pending.newest(), 1),
            final(self).pending.newest() == r,
            final(self).pending@.contains_key(r),
            final(self).pending@ == crate::ring_buffer::keep_window(old(self).pending@, r, 32).insert(
                r,
                final(self).pending@[r],
            ),
            final(self).pending@[r].frame == frame,
            final(self).pending@[r].priority == priority,
            final(self).pending@[r].context == (ResendContext { last_send_ms: None, times_sent: 0 }),
            final(self).pending@[r].state == ReliablePacketState::Constructed,
            final(self).pending@[r].tickets@.len() == 0,
            final(self).send_queue == old(self).send_queue,
            final(self).send_priorities == old(self).send_priorities,
            final(self).send_tickets == old(self).send_tickets,
            final(self).next_ticket == old(self).next_ticket,
            final(self).finished == old(self).finished,
            final(self).recv_queue == old(self).recv_queue,
            final(self).recv_buffer == old(self).recv_buffer,
            final(self).read_packet_head == old(self).read_packet_head,
    {
        let context = resend.new_packet(crate::packet::ReliablePacketKind::Ordered);
        self.pending.push(
            PendingFrame {
                frame,
                priority,
                context,
                state: ReliablePacketState::Constructed,
                tickets: Vec::new(),
            },
        )
    }
}


impl<S: ByteRepr, R> ReliableOrdered<S, R> {
    /// Whether putting the queued messages into packets finds a message that fits at the head
    /// of every packet it makes, as [`Self::flush_messages`] needs.
    pub fn queue_fits(&self) -> (r: bool)
        requires
            self.wf(),
        ensures
            r == packs_fit(
                self.send_queue@,
                free_run(self.pending@, wsub(self.pending.newest(), 31), 32),
            ),
    {
        let free = crate::communicator::free_slots(&self.pending);
        crate::communicator::packs_fit_check(&self.send_queue, free)
    }

    /// Put the queued messages into new pending packets, as far as the buffer allows; see
    /// [`ordered_flushed`]. The packets carry `ack` and are framed for `protocol_version` in
    /// the session of `connection`, which has to be established if anything is queued.
    pub fn flush_messages(
        &mut self,
        connection: &mut InsecureConnection,
        resend: &FixedResend,
        ack: PacketAck,
        protocol_version: u32,
    ) -> (r: Result<(), Error>)
        requires
            old(self).wf(),
            packs_fit(
                old(self).send_queue@,
                free_run(old(self).pending@, wsub(old(self).pending.newest(), 31), 32),
            ),
            old(self).send_queue@.len() > 0 ==> old(connection).state is Connected,
        ensures
            final(self).tickets_follow(old(self)),
            final(self).wf(),
            *final(connection) == *old(connection),
            r is Ok,
            ordered_flushed(
                *final(self),
                *old(self),
                ack,
                session_salt(old(connection).state),
                protocol_version,
            ),
    {
        flush_ordered(
            &mut self.pending,
            &mut self.send_queue,
            &mut self.send_priorities,
            &mut self.send_tickets,
            connection,
            resend,
            ack,
            protocol_version,
        );
        proof {
            assert(ordered_flushed(
                *self,
                *old(self),
                ack,
                session_salt(old(connection).state),
                protocol_version,
            ));
            lemma_flushed_follow(
                *self,
                *old(self),
                ack,
                session_salt(old(connection).state),
                protocol_version,
            );
        }
        Ok(())
    }
}

impl<S, R> ReliableOrdered<S, R> {
    /// The frames to send at `now_ms`: those of the pending packets that are due, oldest first;
    /// they are recorded as sent, and dropped after their last send. See
    /// [`spec_resend_frames`].
    pub fn send(&mut self, resend: &FixedResend, now_ms: u64) -> (frames: Vec<Vec<u8>>)
        requires
            old(self).wf(),
        ensures
            final(self).tickets_follow(old(self)),
            final(self).wf(),
            ({
                let res = spec_resend_frames(
                    *resend,
                    old(self).pending@,
                    wsub(old(self).pending.newest(), 31),
                    32,
                    now_ms,
                );
                &&& final(self).pending@ == res.1
                &&& crate::communicator::frame_views(frames@) == res.0
                &&& finished_views(final(self).finished@) == finished_views(old(self).finished@)
                    + res.2
            }),
            final(self).pending.newest() == old(self).pending.newest(),
            final(self).send_queue == old(self).send_queue,
            final(self).send_priorities == old(self).send_priorities,
            final(self).send_tickets == old(self).send_tickets,
            final(self).next_ticket == old(self).next_ticket,
            final(self).recv_queue == old(self).recv_queue,
            final(self).recv_buffer == old(self).recv_buffer,
            final(self).read_packet_head == old(self).read_packet_head,
    {
        let start = self.pending.get_newest_index().wrapping_sub(31);
        let ghost m0 = self.pending@;
        let mut frames: Vec<Vec<u8>> = Vec::new();
        let mut k: u16 = 0;
        proof {
            assert(crate::communicator::frame_views(frames@) =~= Seq::<Seq<u8>>::empty());
            assert(finished_views(self.finished@) =~= finished_views(old(self).finished@)
                + Seq::<(Seq<Option<u64>>, PacketTrace)>::empty());
        }
        while k < 32
            invariant
                self.pending.wf(),
                self.recv_buffer.wf(),
                self.send_queue@.len() == self.send_priorities@.len(),
                self.send_queue@.len() == self.send_tickets@.len(),
                self.pending.newest() == old(self).pending.newest(),
                start == wsub(old(self).pending.newest(), 31),
                m0 == old(self).pending@,
                k <= 32,
                self.pending@ == spec_resend_frames(*resend, m0, start, k as nat, now_ms).1,
                crate::communicator::frame_views(frames@) == spec_resend_frames(
                    *resend,
                    m0,
                    start,
                    k as nat,
                    now_ms,
                ).0,
                finished_views(self.finished@) == finished_views(old(self).finished@)
                    + spec_resend_frames(*resend, m0, start, k as nat, now_ms).2,
                self.send_queue == old(self).send_queue,
                self.send_priorities == old(self).send_priorities,
                self.send_tickets == old(self).send_tickets,
                self.next_ticket == old(self).next_ticket,
                self.recv_queue == old(self).recv_queue,
                self.recv_buffer == old(self).recv_buffer,
                self.read_packet_head == old(self).read_packet_head,
            decreases 32 - k,
        {
            let idx = start.wrapping_add(k);
            let ghost fv = crate::communicator::frame_views(frames@);
            let ghost fin = finished_views(self.finished@);
            let mut drop = false;
            match self.pending.get_mut(idx) {
                Some(pp) => {
                    let action = resend.resend(&mut pp.context, now_ms);
                    match action {
                        ResendAction::DoNotResend => {},
                        _ => {
                            let f = copy_bytes(&pp.frame);
                            frames.push(f);
                            proof {
                                assert(crate::communicator::frame_views(frames@) =~= fv.push(
                                    f@,
                                ));
                            }
                            let keep = action == ResendAction::Resend;
                            pp.state = next_state(pp.state, keep, now_ms, pp.context.times_sent);
                            if !keep {
                                drop = true;
                            }
                        },
                    }
                },
                None => {},
            }
            if drop {
                match self.pending.take(idx) {
                    Some(pp) => {
                        if any_traced(&pp.tickets) {
                            let trace = PacketTrace { id: idx, priority: pp.priority, state: pp.state };
                            let ghost tv = pp.tickets@;
                            self.finished.push(FinishedTrace { tickets: pp.tickets, trace });
                            proof {
                                assert(finished_views(self.finished@) =~= fin.push((tv, trace)));
                            }
                        }
                    },
                    None => {},
                }
            }
            proof {
                assert(self.pending@ =~= spec_resend_frames(
                    *resend,
                    m0,
                    start,
                    (k + 1) as nat,
                    now_ms,
                ).1);
                assert(crate::communicator::frame_views(frames@) =~= spec_resend_frames(
                    *resend,
                    m0,
                    start,
                    (k + 1) as nat,
                    now_ms,
                ).0);
                assert(finished_views(self.finished@) =~= finished_views(old(self).finished@)
                    + spec_resend_frames(*resend, m0, start, (k + 1) as nat, now_ms).2);
            }
            k = k + 1;
        }
        proof {
            let res = spec_resend_frames(*resend, m0, start, 32, now_ms);
            assert forall|x: u16, t: u64|
                m0.contains_key(x) && #[trigger] m0[x].tickets@.contains(Some(t)) implies (
                self.pending@.contains_key(x) && self.pending@[x].tickets@ == m0[x].tickets@) || (
                exists|i: int| 0 <= i < res.2.len() && #[trigger] res.2[i].0.contains(Some(t))) by {
                lemma_resend_keeps_ticket(*resend, m0, start, 32, now_ms, x, t);
            }
            lemma_resend_shape(*resend, m0, start, 32, now_ms);
            lemma_follow_pending(*old(self), *self, res.2);
        }
        frames
    }
}

/// A traced message that has left the queue is never reported queued again. Along a run of
/// states `rs`, each following the one before as every operation of [`ReliableOrdered`] keeps
/// it ([`ReliableOrdered::tickets_follow`]): once `ticket` was handed out and no queued message
/// holds it, no later state reports its message as queued.
pub proof fn law_never_queued_again<S, R>(rs: Seq<ReliableOrdered<S, R>>, ticket: u64, i: int)
    requires
        0 <= i < rs.len(),
        forall|k: int| #![trigger rs[k]] 0 <= k < rs.len() - 1 ==> rs[k + 1].tickets_follow(&rs[k]),
        ticket < rs[i].next_ticket,
        !rs[i].send_tickets@.contains(Some(ticket)),
    ensures
        forall|k: int|
            i <= k < rs.len() ==> #[trigger] rs[k].spec_message_state(ticket) != Some(
                MessageState::Queued,
            ),
    decreases rs.len() - i,
{
    if i + 1 < rs.len() {
        assert(rs[i + 1].tickets_follow(&rs[i]));
        law_never_queued_again(rs, ticket, i + 1);
    }
    assert forall|k: int| i <= k < rs.len() implies #[trigger] rs[k].spec_message_state(ticket)
        != Some(MessageState::Queued) by {
        if k > i {
            assert(rs[k].spec_message_state(ticket) != Some(MessageState::Queued));
        }
    }
}

/// A ticket held somewhere is found: [`ReliableOrdered::spec_message_state`] reports what
/// became of its message.
pub proof fn lemma_held_found<S, R>(o: ReliableOrdered<S, R>, ticket: u64)
    requires
        o.wf(),
        o.holds_ticket(ticket),
    ensures
        o.spec_message_state(ticket) is Some,
{
    if !o.send_tickets@.contains(Some(ticket)) {
        let start = wsub(o.pending.newest(), 31);
        if exists|x: u16|
            #[trigger] o.pending@.contains_key(x) && o.pending@[x].tickets@.contains(Some(ticket)) {
            let x = choose|x: u16|
                #[trigger] o.pending@.contains_key(x) && o.pending@[x].tickets@.contains(Some(ticket));
            o.pending.lemma_view_in_window(x);
            crate::ring_buffer::lemma_wadd_dist(x, start);
            assert(dist(x, start) < 32);
            lemma_find_pending_some(o.pending@, start, ticket, 32, dist(x, start));
        } else {
            let i = choose|i: int|
                0 <= i < o.finished@.len() && #[trigger] o.finished@[i].tickets@.contains(Some(ticket));
            let fs = finished_views(o.finished@);
            assert(fs[i].0 == o.finished@[i].tickets@);
            lemma_find_finished_some(fs, ticket, fs.len(), i);
        }
    }
}

/// A traced message is never lost. Along a run of well-formed states `rs`, each following the
/// one before as every operation of [`ReliableOrdered`] keeps it
/// ([`ReliableOrdered::tickets_follow`]): once a queued message, a pending packet or a finished
/// trace holds `ticket` (as it does right after [`ReliableOrdered::queue_message_with_trace`]
/// handed it out), every later state reports what became of its message.
pub proof fn law_trace_never_lost<S, R>(rs: Seq<ReliableOrdered<S, R>>, ticket: u64, i: int)
    requires
        0 <= i < rs.len(),
        forall|k: int| 0 <= k < rs.len() ==> #[trigger] rs[k].wf(),
        forall|k: int| #![trigger rs[k]] 0 <= k < rs.len() - 1 ==> rs[k + 1].tickets_follow(&rs[k]),
        rs[i].holds_ticket(ticket),
    ensures
        forall|k: int| i <= k < rs.len() ==> (#[trigger] rs[k].spec_message_state(ticket)) is Some,
    decreases rs.len() - i,
{
    lemma_held_found(rs[i], ticket);
    if i + 1 < rs.len() {
        assert(rs[i + 1].tickets_follow(&rs[i]));
        law_trace_never_lost(rs, ticket, i + 1);
    }
    assert forall|k: int| i <= k < rs.len() implies (#[trigger] rs[k].spec_message_state(ticket))
        is Some by {
        if k > i {
            assert(rs[k].spec_message_state(ticket) is Some);
        }
    }
}

/// A packet found holding `ticket` holds it.
proof fn lemma_find_pending_holds(m: Map<u16, PendingFrame>, start: u16, ticket: u64, n: nat)
    ensures
        find_pending(m, start, ticket, n) matches Some(idx) ==> m.contains_key(idx)
            && m[idx].tickets@.contains(Some(ticket)),
    decreases n,
{
    if n > 0 {
        lemma_find_pending_holds(m, start, ticket, (n - 1) as nat);
    }
}

/// A trace found holding `ticket` is that of a finished packet that holds it.
proof fn lemma_find_finished_holds(fs: Seq<(Seq<Option<u64>>, PacketTrace)>, ticket: u64, n: nat) -> (i: int)
    requires
        n <= fs.len(),
        find_finished(fs, ticket, n) is Some,
    ensures
        0 <= i < n,
        fs[i].0.contains(Some(ticket)),
        find_finished(fs, ticket, n) == Some(fs[i].1),
    decreases n,
{
    if find_finished(fs, ticket, (n - 1) as nat) is Some {
        lemma_find_finished_holds(fs, ticket, (n - 1) as nat)
    } else {
        n - 1
    }
}

/// With its tickets in order, the state reported of a traced message is that of the one place
/// that holds its ticket: queued, or the id, priority and current state of the pending packet
/// that carries it, or, once that packet was acknowledged or sent for the last time, of its
/// finished trace.
#[verifier::rlimit(30)]
pub proof fn law_message_state_of_holder<S, R>(o: ReliableOrdered<S, R>, ticket: u64, p: TicketPlace)
    requires
        o.wf(),
        o.tickets_wf(),
        o.holds_at(p, ticket),
    ensures
        o.spec_message_state(ticket) == Some(o.place_state(p)),
{
    let q = o.send_tickets@;
    let m = o.pending@;
    let fs = finished_views(o.finished@);
    assert(single_place(q, m, fs, ticket));
    let start = wsub(o.pending.newest(), 31);
    match p {
        TicketPlace::Queued(a) => {},
        TicketPlace::Pending(x) => {
            if q.contains(Some(ticket)) {
                let a = choose|a: int| 0 <= a < q.len() && q[a] == Some(ticket);
                assert(held_at(q, m, fs, TicketPlace::Queued(a), ticket));
            }
            o.pending.lemma_view_in_window(x);
            crate::ring_buffer::lemma_wadd_dist(x, start);
            assert(dist(x, start) < 32);
            lemma_find_pending_some(m, start, ticket, 32, dist(x, start));
            lemma_find_pending_holds(m, start, ticket, 32);
            let idx = find_pending(m, start, ticket, 32)->Some_0;
            assert(held_at(q, m, fs, TicketPlace::Pending(idx), ticket));
        },
        TicketPlace::Finished(i) => {
            if q.contains(Some(ticket)) {
                let a = choose|a: int| 0 <= a < q.len() && q[a] == Some(ticket);
                assert(held_at(q, m, fs, TicketPlace::Queued(a), ticket));
            }
            lemma_find_pending_holds(m, start, ticket, 32);
            if find_pending(m, start, ticket, 32) is Some {
                let idx = find_pending(m, start, ticket, 32)->Some_0;
                assert(held_at(q, m, fs, TicketPlace::Pending(idx), ticket));
            }
            lemma_find_finished_some(fs, ticket, fs.len(), i);
            let i2 = lemma_find_finished_holds(fs, ticket, fs.len());
            assert(held_at(q, m, fs, TicketPlace::Finished(i2), ticket));
        },
    }
}

/// A traced message follows its packet. Along a run of well-formed states `rs`, each following
/// the one before as every operation of [`ReliableOrdered`] keeps it
/// ([`ReliableOrdered::tickets_follow`]), and starting with tickets in order (as a new one is):
/// in every state, what is reported of `ticket` is what the one place holding it says, so
/// queued while queued, then the id, priority and current state of the packet that carries
/// the message, as each send and acknowledgement updates it (see [`ReliableOrdered::send`]
/// and [`ReliableOrdered::acknowledge`]), and the packet's last state once it is finished.
pub proof fn law_trace_follows_packet<S, R>(rs: Seq<ReliableOrdered<S, R>>, ticket: u64)
    requires
        rs.len() > 0,
        rs[0].tickets_wf(),
        forall|k: int| 0 <= k < rs.len() ==> #[trigger] rs[k].wf(),
        forall|k: int| #![trigger rs[k]] 0 <= k < rs.len() - 1 ==> rs[k + 1].tickets_follow(&rs[k]),
    ensures
        forall|k: int, p: TicketPlace|
            0 <= k < rs.len() && #[trigger] rs[k].holds_at(p, ticket) ==> rs[k].spec_message_state(
                ticket,
            ) == Some(rs[k].place_state(p)),
{
    lemma_run_tickets_wf(rs, 0);
    assert forall|k: int, p: TicketPlace|
        0 <= k < rs.len() && #[trigger] rs[k].holds_at(p, ticket) implies rs[k].spec_message_state(
        ticket,
    ) == Some(rs[k].place_state(p)) by {
        assert(rs[k].tickets_wf());
        law_message_state_of_holder(rs[k], ticket, p);
    }
}

/// Along such a run, the tickets stay in order from `rs[i]` on.
proof fn lemma_run_tickets_wf<S, R>(rs: Seq<ReliableOrdered<S, R>>, i: int)
    requires
        0 <= i < rs.len(),
        rs[i].tickets_wf(),
        forall|k: int| #![trigger rs[k]] 0 <= k < rs.len() - 1 ==> rs[k + 1].tickets_follow(&rs[k]),
    ensures
        forall|k: int| i <= k < rs.len() ==> #[trigger] rs[k].tickets_wf(),
    decreases rs.len() - i,
{
    if i + 1 < rs.len() {
        assert(rs[i + 1].tickets_follow(&rs[i]));
        lemma_run_tickets_wf(rs, i + 1);
    }
    assert forall|k: int| i <= k < rs.len() implies #[trigger] rs[k].tickets_wf() by {
        if k > i {
            assert(rs[k].tickets_wf());
        }
    }
}

/// A packet sent for the last time says so. Where every pending packet of `m` is constructed
/// or being sent and was sent at most `max_retries` times, going through them at a send
/// leaves a trace with the send limit reached for every traced packet dropped, never one that
/// is still being sent, and sent once more than the retries allow; the packets that stay
/// pending are constructed or being sent, and were sent at most `max_retries` times.
#[verifier::rlimit(30)]
pub proof fn law_last_send_reaches_limit(
    cfg: FixedResend,
    m: Map<u16, PendingFrame>,
    start: u16,
    k: nat,
    now: u64,
)
    requires
        forall|x: u16| #[trigger] m.contains_key(x) ==> {
            &&& m[x].state is Constructed || m[x].state is Sending
            &&& m[x].context.times_sent <= cfg.max_retries
        },
    ensures
        ({
            let res = spec_resend_frames(cfg, m, start, k, now);
            &&& forall|i: int|
                0 <= i < res.2.len() ==> (#[trigger] res.2[i]).1.state is SendLimitReached
                    && res.2[i].1.state->SendLimitReached_times_send == cfg.max_retries + 1
            &&& forall|x: u16| #[trigger] res.1.contains_key(x) ==> {
                &&& res.1[x].state is Constructed || res.1[x].state is Sending
                &&& res.1[x].context.times_sent <= cfg.max_retries
            }
        }),
    decreases k,
{
    if k > 0 {
        law_last_send_reaches_limit(cfg, m, start, (k - 1) as nat, now);
        let prev = spec_resend_frames(cfg, m, start, (k - 1) as nat, now);
        let res = spec_resend_frames(cfg, m, start, k, now);
        assert forall|i: int| 0 <= i < prev.2.len() implies #[trigger] res.2[i] == prev.2[i] by {}
    }
}

/// An acknowledgement finishes a sent packet's trace as acknowledged. Where every pending
/// packet of `m` is constructed or being sent, each trace that acknowledging the packets named
/// by `bits` (counting back from `newest`) leaves is that of a named packet of `m`, with its
/// priority; a packet that was being sent is acknowledged at `now`, keeping its first send and
/// its number of sends.
#[verifier::rlimit(30)]
pub proof fn law_ack_finishes_trace(m: Map<u16, PendingFrame>, newest: u16, bits: u32, n: nat, now: u64)
    requires
        n <= 32,
        forall|x: u16| #[trigger] m.contains_key(x) ==> m[x].state is Constructed || m[x].state is Sending,
    ensures
        forall|i: int|
            0 <= i < acked_traces(m, newest, bits, n, now).len() ==> {
                let tr = (#[trigger] acked_traces(m, newest, bits, n, now)[i]).1;
                &&& m.contains_key(tr.id)
                &&& acked_indices(newest, bits).contains(tr.id)
                &&& tr.priority == m[tr.id].priority
                &&& m[tr.id].state matches ReliablePacketState::Sending { first_send, times_send }
                    ==> tr.state == (ReliablePacketState::Acknowledged {
                    first_send,
                    times_send,
                    ack_received: now,
                })
                &&& m[tr.id].state is Constructed ==> tr.state is Constructed
            },
    decreases n,
{
    if n > 0 {
        law_ack_finishes_trace(m, newest, bits, (n - 1) as nat, now);
        let prev = acked_traces(m, newest, bits, (n - 1) as nat, now);
        let a = acked_traces(m, newest, bits, n, now);
        assert forall|i: int| 0 <= i < prev.len() implies #[trigger] a[i] == prev[i] by {}
        let idx = wsub(newest, n - 1);
        if bit_set(bits, n - 1) && m.contains_key(idx) && traced(m[idx].tickets@) {
            assert(acked_indices(newest, bits).contains(idx)) by {
                assert(bit_set(bits, n - 1) && idx == wsub(newest, n - 1));
            }
        }
    }
}

/// A session side reads a received packet at most once: one read before, or one lying so far
/// behind the newest received that it may have been read and forgotten, changes nothing; the
/// first gives `Ok(true)`, the second [`Error::PacketTooOld`]. Any other is stored, giving
/// `Ok(false)`.
pub proof fn law_session_read_at_most_once<S, R>(
    before: ReliableOrdered<S, R>,
    after: ReliableOrdered<S, R>,
    sequence_id: u16,
    messages: Vec<R>,
    r: Result<bool, Error>,
)
    requires
        before.wf(),
        after.packet_read(&before, sequence_id, messages, r),
    ensures
        ({
            let newest = before.recv_buffer.newest();
            let seen = before.recv_buffer@.contains_key(sequence_id);
            &&& seen ==> r == Ok::<bool, Error>(true) && after == before
            &&& (!seen && spec_too_old(newest, sequence_id)) ==> r == Err::<bool, Error>(
                Error::PacketTooOld { sequence_id, newest_id: newest },
            ) && after == before
            &&& (!seen && !spec_too_old(newest, sequence_id)) ==> r == Ok::<bool, Error>(false)
                && after.recv_buffer@.contains_key(sequence_id)
        }),
{
    let newest = before.recv_buffer.newest();
    if !before.recv_buffer@.contains_key(sequence_id) && !spec_too_old(newest, sequence_id) {
        crate::ring_buffer::law_insert_then_get(before.recv_buffer@, newest, sequence_id, messages, 32);
        let ins = spec_insert(before.recv_buffer@, newest, sequence_id, messages, 32);
        assert(vec_views(ins.1).contains_key(sequence_id));
        assert(vec_views(after.recv_buffer@).contains_key(sequence_id));
    }
}

/// Going through the pending packets at a send touches only the `k` indices from `start` on,
/// and only adds traces.
proof fn lemma_resend_frames_untouched(
    cfg: FixedResend,
    m: Map<u16, PendingFrame>,
    start: u16,
    k: nat,
    now: u64,
    x: u16,
)
    requires
        k <= 32,
        forall|i: int| 0 <= i < k ==> wadd(start, i) != x,
    ensures
        spec_resend_frames(cfg, m, start, k, now).1.contains_key(x) == m.contains_key(x),
        m.contains_key(x) ==> spec_resend_frames(cfg, m, start, k, now).1[x] == m[x],
    decreases k,
{
    if k > 0 {
        lemma_resend_frames_untouched(cfg, m, start, (k - 1) as nat, now, x);
        assert(wadd(start, k - 1) != x);
    }
}

/// The first send of a packet in state `s`, were it sent at `now`.
pub open spec fn first_send_at(s: ReliablePacketState, now: u64) -> u64 {
    match s {
        ReliablePacketState::Sending { first_send, .. } => first_send,
        _ => now,
    }
}

/// Every packet due at a send is sent, and its state says so. Going through the `k` indices
/// from `start` on of the pending packets `m` (each constructed or being sent, and sent at
/// most `max_retries` times), a packet due at `now` that has sends left stays, being sent since
/// its first send (`now` for one never sent) and sent once more; one whose last send this is
/// leaves, and if it is traced, its trace says the send limit was reached after
/// `max_retries + 1` sends, with its id, its priority and its first send.
#[verifier::rlimit(30)]
pub proof fn law_due_packet_sent(cfg: FixedResend, m: Map<u16, PendingFrame>, start: u16, k: nat, now: u64)
    requires
        k <= 32,
        forall|x: u16| #[trigger] m.contains_key(x) ==> {
            &&& m[x].state is Constructed || m[x].state is Sending
            &&& m[x].context.times_sent <= cfg.max_retries
        },
    ensures
        forall|j: int|
            0 <= j < k && m.contains_key(#[trigger] wadd(start, j)) && (m[wadd(start, j)].context.last_send_ms is None || (now >= m[wadd(start, j)].context.last_send_ms->Some_0 && now - m[wadd(start, j)].context.last_send_ms->Some_0 > cfg.resend_interval_ms)) ==> {
                let x = wadd(start, j);
                let res = spec_resend_frames(cfg, m, start, k, now);
                let times = (m[x].context.times_sent + 1) as u32;
                let fs = first_send_at(m[x].state, now);
                &&& m[x].context.times_sent < cfg.max_retries ==> {
                    &&& res.1.contains_key(x)
                    &&& res.1[x].context == (ResendContext {
                        last_send_ms: Some(now),
                        times_sent: times,
                    })
                    &&& res.1[x].state == (ReliablePacketState::Sending {
                        first_send: fs,
                        times_send: times,
                    })
                    &&& res.1[x].tickets == m[x].tickets
                }
                &&& m[x].context.times_sent == cfg.max_retries < u32::MAX ==> {
                    &&& !res.1.contains_key(x)
                    &&& traced(m[x].tickets@) ==> exists|i: int|
                        0 <= i < res.2.len() && (#[trigger] res.2[i]) == (
                        m[x].tickets@,
                        PacketTrace {
                            id: x,
                            priority: m[x].priority,
                            state: ReliablePacketState::SendLimitReached {
                                first_send: fs,
                                times_send: times,
                            },
                        },
                    )
                }
            },
    decreases k,
{
    if k > 0 {
        law_due_packet_sent(cfg, m, start, (k - 1) as nat, now);
        let idx = wadd(start, k - 1);
        assert forall|i: int| 0 <= i < k - 1 implies wadd(start, i) != idx by {
            crate::ring_buffer::lemma_dist_wadd(start, k - 1, i);
        }
        lemma_resend_frames_untouched(cfg, m, start, (k - 1) as nat, now, idx);
        let res = spec_resend_frames(cfg, m, start, k, now);
        let prev = spec_resend_frames(cfg, m, start, (k - 1) as nat, now);
        assert forall|i: int| 0 <= i < prev.2.len() implies #[trigger] res.2[i] == prev.2[i] by {}
        assert forall|j: int|
            0 <= j < k && m.contains_key(#[trigger] wadd(start, j)) && (m[wadd(start, j)].context.last_send_ms is None || (now >= m[wadd(start, j)].context.last_send_ms->Some_0 && now - m[wadd(start, j)].context.last_send_ms->Some_0 > cfg.resend_interval_ms)) implies {
                let x = wadd(start, j);
                let times = (m[x].context.times_sent + 1) as u32;
                let fs = first_send_at(m[x].state, now);
                &&& m[x].context.times_sent < cfg.max_retries ==> {
                    &&& res.1.contains_key(x)
                    &&& res.1[x].context == (ResendContext {
                        last_send_ms: Some(now),
                        times_sent: times,
                    })
                    &&& res.1[x].state == (ReliablePacketState::Sending {
                        first_send: fs,
                        times_send: times,
                    })
                    &&& res.1[x].tickets == m[x].tickets
                }
                &&& m[x].context.times_sent == cfg.max_retries < u32::MAX ==> {
                    &&& !res.1.contains_key(x)
                    &&& traced(m[x].tickets@) ==> exists|i: int|
                        0 <= i < res.2.len() && (#[trigger] res.2[i]) == (
                        m[x].tickets@,
                        PacketTrace {
                            id: x,
                            priority: m[x].priority,
                            state: ReliablePacketState::SendLimitReached {
                                first_send: fs,
                                times_send: times,
                            },
                        },
                    )
                }
            } by {
            let x = wadd(start, j);
            if j < k - 1 {
                crate::ring_buffer::lemma_dist_wadd(start, k - 1, j);
                assert(x != idx);
                assert(res.1.contains_key(x) == prev.1.contains_key(x));
                if prev.1.contains_key(x) {
                    assert(res.1[x] == prev.1[x]);
                }
                if m[x].context.times_sent == cfg.max_retries < u32::MAX && traced(m[x].tickets@) {
                    let i = choose|i: int|
                        0 <= i < prev.2.len() && (#[trigger] prev.2[i]) == (
                        m[x].tickets@,
                        PacketTrace {
                            id: x,
                            priority: m[x].priority,
                            state: ReliablePacketState::SendLimitReached {
                                first_send: first_send_at(m[x].state, now),
                                times_send: (m[x].context.times_sent + 1) as u32,
                            },
                        },
                    );
                    assert(res.2[i] == prev.2[i]);
                }
            } else {
                assert(x == idx);
                assert(prev.1.contains_key(idx) && prev.1[idx] == m[idx]);
                if m[x].context.times_sent == cfg.max_retries < u32::MAX && traced(m[x].tickets@) {
                    assert(res.2[prev.2.len() as int].1.id == x);
                }
            }
        }
    }
}

} // verus!
