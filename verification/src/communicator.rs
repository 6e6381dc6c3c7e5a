//! The state of one side of a connection: what is queued to be sent, the reliable packets
//! waiting for their acknowledgement, and what was received.
//!
//! The socket itself is not part of this state. A caller hands received frames to
//! [`InnerUdpCommunicator::read_packet`] and sends the frames that
//! [`InnerUdpCommunicator::prepare_send`] produces. Points in time are milliseconds on a clock of
//! the caller's choice.
use vstd::prelude::*;
use std::collections::VecDeque;
use crate::byte_repr::ByteRepr;
use crate::error::Error;
use crate::context::{MightHaveWork, MessageSource};
use crate::frame::{read_frame, spec_read_frame, spec_frame, write_frame};
use crate::packet::{
    MAX_PACKET_DATA_LEN,
    PacketAck,
    PacketData,
    Packet,
    ReliablePacketKind,
    acked_indices,
    acknowledge_pending,
    ack_bits_of,
};
use crate::ring_buffer::{
    RingBuffer,
    wadd,
    wsub,
    dist,
    in_window,
    keep_window,
    spec_insert,
    spec_wrapping_gt,
    wrapping_gt,
};

verus! {

/// What the resend strategy decided for a pending reliable packet.
#[derive(Debug, Clone, Copy, PartialEq, Eq, Structural)]
pub enum ResendAction {
    /// Send the packet again and keep it.
    Resend,
    /// Send the packet one last time, then drop it.
    ResendThenDrop,
    /// Do not send the packet now.
    DoNotResend,
}

/// What the resend strategy remembers of one pending packet.
#[derive(Debug, Clone, Copy, PartialEq, Eq, Structural)]
pub struct ResendContext {
    /// When the packet was sent last, if it was sent at all.
    pub last_send_ms: Option<u64>,
    /// How often the packet was sent.
    pub times_sent: u32,
}

/// Resend a reliable packet at a fixed interval until it is acknowledged, at most
/// `max_retries` times after its first send.
#[derive(Debug, Clone, Copy, PartialEq, Eq, Structural)]
pub struct FixedResend {
    /// The time after a send at which an unacknowledged packet is sent again.
    pub resend_interval_ms: u64,
    /// How often an unacknowledged packet is sent again after its first send.
    pub max_retries: u32,
}

/// Whether a packet last sent at `last` is due at `now`: never sent, or more than `interval`
/// has passed.
pub open spec fn spec_resend_due(last: Option<u64>, now: u64, interval: u64) -> bool {
    match last {
        None => true,
        Some(t) => now >= t && now - t > interval,
    }
}

/// The decision of [`FixedResend::resend`] and the context afterwards.
pub open spec fn spec_resend(cfg: FixedResend, ctx: ResendContext, now: u64) -> (
    ResendAction,
    ResendContext,
) {
    if spec_resend_due(ctx.last_send_ms, now, cfg.resend_interval_ms) {
        let times = if ctx.times_sent == u32::MAX {
            u32::MAX
        } else {
            (ctx.times_sent + 1) as u32
        };
        let next = ResendContext { last_send_ms: Some(now), times_sent: times };
        if times > cfg.max_retries {
            (ResendAction::ResendThenDrop, next)
        } else {
            (ResendAction::Resend, next)
        }
    } else {
        (ResendAction::DoNotResend, ctx)
    }
}

impl FixedResend {
    /// Resend every 100 ms, at most 100 times.
    pub fn new() -> (r: Self)
        ensures
            r.resend_interval_ms == 100,
            r.max_retries == 100,
    {
        FixedResend { resend_interval_ms: 100, max_retries: 100 }
    }

    /// Set the time after which an unacknowledged packet is sent again.
    pub fn set_resend_interval(&mut self, interval_ms: u64)
        ensures
            *final(self) == (FixedResend { resend_interval_ms: interval_ms, ..*old(self) }),
    {
        self.resend_interval_ms = interval_ms;
    }

    /// Set how often an unacknowledged packet is sent again after its first send.
    pub fn set_max_retries(&mut self, max_retries: u32)
        ensures
            *final(self) == (FixedResend { max_retries, ..*old(self) }),
    {
        self.max_retries = max_retries;
    }

    /// The context of a packet that was not sent yet.
    pub fn new_packet(&self, kind: ReliablePacketKind) -> (r: ResendContext)
        ensures
            r == (ResendContext { last_send_ms: None, times_sent: 0 }),
    {
        ResendContext { last_send_ms: None, times_sent: 0 }
    }

    /// Decide at `now_ms` whether to send the packet with context `ctx` again, and record the
    /// send in `ctx` if so.
    pub fn resend(&self, ctx: &mut ResendContext, now_ms: u64) -> (r: ResendAction)
        ensures
            (r, *final(ctx)) == spec_resend(*self, *old(ctx), now_ms),
    {
        let due = match ctx.last_send_ms {
            None => true,
            Some(t) => now_ms >= t && now_ms - t > self.resend_interval_ms,
        };
        if due {
            let times = ctx.times_sent.saturating_add(1);
            ctx.last_send_ms = Some(now_ms);
            ctx.times_sent = times;
            if times > self.max_retries {
                ResendAction::ResendThenDrop
            } else {
                ResendAction::Resend
            }
        } else {
            ResendAction::DoNotResend
        }
    }
}

/// A reliable packet waiting for its acknowledgement, with what the resend strategy remembers
/// of it.
pub struct PendingPacket<S> {
    pub resend_context: ResendContext,
    pub packet: Packet<S>,
}

/// Append `items` to the back of `queue`, in order.
pub(crate) fn extend_queue<T>(queue: &mut VecDeque<T>, items: Vec<T>)
    ensures
        final(queue)@ == old(queue)@ + items@,
{
    let mut items = items;
    let ghost all = items@;
    let mut tail: VecDeque<T> = VecDeque::new();
    while items.len() > 0
        invariant
            items@ + tail@ == all,
        decreases items@.len(),
    {
        let ghost before = items@;
        let item = items.pop().unwrap();
        assert(before == items@.push(item));
        let ghost tail_before = tail@;
        tail.push_front(item);
        assert(items@ + tail@ =~= before + tail_before);
    }
    assert(tail@ =~= all);
    queue.append(&mut tail);
}

/// The messages held by each received ordered packet.
pub open spec fn vec_views<R>(m: Map<u16, Vec<R>>) -> Map<u16, Seq<R>> {
    m.map_values(|v: Vec<R>| v@)
}

/// Whether the `i` indices `head`, `head + 1`, ... (wrapping) all hold a packet in `m`.
pub open spec fn all_present<X>(m: Map<u16, X>, head: u16, i: nat) -> bool {
    forall|j: int| 0 <= j < i ==> #[trigger] m.contains_key(wadd(head, j))
}

/// The length of the run of consecutive indices from `head` on that hold a packet in `m`, at
/// most `k`.
pub open spec fn run_len<X>(m: Map<u16, X>, head: u16, k: nat) -> nat
    decreases k,
{
    if k == 0 {
        0
    } else if all_present(m, head, k) {
        k
    } else {
        run_len(m, head, (k - 1) as nat)
    }
}

/// The messages of the `k` packets from `head` on, in order.
pub open spec fn run_msgs<X>(m: Map<u16, Seq<X>>, head: u16, k: nat) -> Seq<X>
    decreases k,
{
    if k == 0 {
        Seq::empty()
    } else {
        run_msgs(m, head, (k - 1) as nat) + m[wadd(head, k - 1)]
    }
}

/// `m` with the messages of the `k` packets from `head` on handed out: the packets stay, empty.
pub open spec fn drain_run<X>(m: Map<u16, Seq<X>>, head: u16, k: nat) -> Map<u16, Seq<X>> {
    Map::new(
        |i: u16| m.contains_key(i),
        |i: u16|
            if dist(i, head) < k {
                Seq::empty()
            } else {
                m[i]
            },
    )
}

/// The run ends at the first index that holds no packet.
pub proof fn lemma_run_len<X>(m: Map<u16, X>, head: u16, i: nat, k: nat)
    requires
        i <= k,
        all_present(m, head, i),
        i == k || !m.contains_key(wadd(head, i as int)),
    ensures
        run_len(m, head, k) == i,
    decreases k,
{
    if k > i {
        assert(!all_present(m, head, k));
        lemma_run_len(m, head, i, (k - 1) as nat);
    }
}

/// An ordered packet `seq` is too old to be accepted when it lies more than 31 and less than 64
/// indices before the newest one received.
pub open spec fn spec_too_old(newest: u16, seq: u16) -> bool {
    spec_wrapping_gt(wsub(newest, 31), seq, 64)
}

/// Hand out the messages of the ordered packets received in `ring`, in order, starting at the
/// read head `head`: the packets from the head on hold the messages up to the first index
/// without a packet; their messages are appended to `queue`, they stay in `ring` emptied, and
/// the head moves past them.
pub(crate) fn deliver_run<R>(ring: &mut RingBuffer<Vec<R>, 32>, head: &mut u16, queue: &mut VecDeque<R>)
    requires
        old(ring).wf(),
    ensures
        final(ring).wf(),
        ({
            let m = vec_views(old(ring)@);
            let k = run_len(m, *old(head), 32);
            &&& final(ring).newest() == old(ring).newest()
            &&& vec_views(final(ring)@) == drain_run(m, *old(head), k)
            &&& *final(head) == wadd(*old(head), k as int)
            &&& final(queue)@ == old(queue)@ + run_msgs(m, *old(head), k)
        }),
{
    let ghost m0 = vec_views(ring@);
    let ghost head0 = *head;
    let ghost q0 = queue@;
    let mut i: u16 = 0;
    proof {
        assert(drain_run(m0, head0, 0) =~= m0);
    }
    while i < 32
        invariant_except_break
            ring.wf(),
            ring.newest() == old(ring).newest(),
            m0 == vec_views(old(ring)@),
            head0 == *old(head),
            q0 == old(queue)@,
            i <= 32,
            all_present(m0, head0, i as nat),
            *head == wadd(head0, i as int),
            vec_views(ring@) == drain_run(m0, head0, i as nat),
            queue@ == q0 + run_msgs(m0, head0, i as nat),
        ensures
            ring.wf(),
            ring.newest() == old(ring).newest(),
            i <= 32,
            all_present(m0, head0, i as nat),
            i == 32 || !m0.contains_key(wadd(head0, i as int)),
            *head == wadd(head0, i as int),
            vec_views(ring@) == drain_run(m0, head0, i as nat),
            queue@ == q0 + run_msgs(m0, head0, i as nat),
        decreases 32 - i,
    {
        let cur = *head;
        let ghost before = ring@;
        proof {
            assert(dist(cur, head0) == i);
            assert(vec_views(before).contains_key(cur) == before.contains_key(cur));
            assert(drain_run(m0, head0, i as nat).contains_key(cur) == m0.contains_key(cur));
        }
        match ring.get_mut(cur) {
            Some(msgs) => {
                let mut taken: Vec<R> = Vec::new();
                std::mem::swap(msgs, &mut taken);
                let ghost emptied: Vec<R> = *msgs;
                assert(emptied@ == Seq::<R>::empty());
                proof {
                    assert(m0.contains_key(cur));
                    assert(vec_views(before)[cur] == before[cur]@);
                    assert(taken@ == m0[wadd(head0, i as int)]);
                }
                extend_queue(queue, taken);
                *head = cur.wrapping_add(1);
                proof {
                    assert(*head == wadd(head0, i + 1)) by {
                        crate::ring_buffer::lemma_wadd_step(head0, i as int);
                    }
                    assert(all_present(m0, head0, (i + 1) as nat)) by {
                        assert forall|j: int| 0 <= j < i + 1 implies #[trigger] m0.contains_key(
                            wadd(head0, j),
                        ) by {
                            if j == i as int {
                                assert(m0.contains_key(cur));
                            }
                        }
                    }
                    assert(queue@ =~= q0 + run_msgs(m0, head0, (i + 1) as nat));
                    let after = vec_views(ring@);
                    let expected = drain_run(m0, head0, (i + 1) as nat);
                    assert(ring@ == before.insert(cur, emptied));
                    assert forall|x: u16| #[trigger] after.contains_key(x) == expected.contains_key(x) by {
                        assert(vec_views(before).contains_key(x) == before.contains_key(x));
                        assert(drain_run(m0, head0, i as nat).contains_key(x) == m0.contains_key(x));
                    }
                    assert forall|x: u16| #[trigger] after.contains_key(x) implies after[x] == expected[x] by {
                        assert(vec_views(before).contains_key(x) == before.contains_key(x));
                        assert(drain_run(m0, head0, i as nat).contains_key(x) == m0.contains_key(x));
                        if x == cur {
                            assert(after[x] == emptied@);
                        } else {
                            assert(after[x] == before[x]@);
                            assert(vec_views(before)[x] == before[x]@);
                            assert(dist(x, head0) != i);
                        }
                    }
                    assert(after =~= expected);
                }
                i = i + 1;
            },
            None => {
                proof {
                    assert(!m0.contains_key(cur));
                }
                break ;
            },
        }
    }
    proof {
        lemma_run_len(m0, head0, i as nat, 32);
    }
}

/// The number of bytes message `m` takes.
pub open spec fn msg_len<S: ByteRepr>(m: S) -> int {
    S::spec_to_bytes(m.deep_view()).len() as int
}

/// The number of leading messages of `msgs` that fit into `avail` bytes together.
pub open spec fn greedy_count<S: ByteRepr>(msgs: Seq<S>, avail: int) -> nat
    decreases msgs.len(),
{
    if msgs.len() == 0 {
        0
    } else if msg_len(msgs[0]) > avail {
        0
    } else {
        1 + greedy_count(msgs.drop_first(), avail - msg_len(msgs[0]))
    }
}

/// The messages of the packets that packing `msgs` gives, at most `max_packets` of them: each
/// packet takes as many of the leading messages left as fit into [`MAX_PACKET_DATA_LEN`]
/// bytes.
pub open spec fn packed<S: ByteRepr>(msgs: Seq<S>, max_packets: nat) -> Seq<Seq<S>>
    decreases max_packets,
{
    if max_packets == 0 || msgs.len() == 0 {
        Seq::empty()
    } else {
        let k = greedy_count(msgs, MAX_PACKET_DATA_LEN as int);
        if k == 0 {
            Seq::empty()
        } else {
            seq![msgs.take(k as int)] + packed(msgs.skip(k as int), (max_packets - 1) as nat)
        }
    }
}

/// Whether packing `msgs` into at most `max_packets` packets finds, at the head of every
/// packet it makes, a message that fits into a packet of its own. Messages are never split,
/// so this is what packing needs; messages that would stay queued are not asked about.
pub open spec fn packs_fit<S: ByteRepr>(msgs: Seq<S>, max_packets: nat) -> bool
    decreases max_packets,
{
    if max_packets == 0 || msgs.len() == 0 {
        true
    } else {
        &&& msg_len(msgs[0]) <= MAX_PACKET_DATA_LEN
        &&& packs_fit(
            msgs.skip(greedy_count(msgs, MAX_PACKET_DATA_LEN as int) as int),
            (max_packets - 1) as nat,
        )
    }
}

/// The number of bytes the messages `msgs` take together.
pub open spec fn total_len<S: ByteRepr>(msgs: Seq<S>) -> int
    decreases msgs.len(),
{
    if msgs.len() == 0 {
        0
    } else {
        msg_len(msgs[0]) + total_len(msgs.drop_first())
    }
}

/// The leading messages that greedy packing takes fit into the bytes available.
pub(crate) proof fn lemma_greedy_fits<S: ByteRepr>(msgs: Seq<S>, avail: int)
    requires
        avail >= 0,
    ensures
        greedy_count(msgs, avail) <= msgs.len(),
        total_len(msgs.take(greedy_count(msgs, avail) as int)) <= avail,
    decreases msgs.len(),
{
    let k = greedy_count(msgs, avail);
    if msgs.len() == 0 || msg_len(msgs[0]) > avail {
        assert(msgs.take(0) =~= Seq::<S>::empty());
    } else {
        let rest = msgs.drop_first();
        let avail2 = avail - msg_len(msgs[0]);
        lemma_greedy_fits(rest, avail2);
        assert(msgs.take(k as int).drop_first() =~= rest.take((k - 1) as int));
        assert(msgs.take(k as int)[0] == msgs[0]);
    }
}

/// Every packet that packing makes holds at least one message, and its messages take at most
/// [`MAX_PACKET_DATA_LEN`] bytes together.
pub proof fn law_packets_fit<S: ByteRepr>(msgs: Seq<S>, max_packets: nat)
    requires
        packs_fit(msgs, max_packets),
    ensures
        forall|i: int|
            0 <= i < packed(msgs, max_packets).len() ==> {
                &&& (#[trigger] packed(msgs, max_packets)[i]).len() >= 1
                &&& total_len(packed(msgs, max_packets)[i]) <= MAX_PACKET_DATA_LEN
            },
    decreases max_packets,
{
    if max_packets > 0 && msgs.len() > 0 {
        let k = greedy_count(msgs, MAX_PACKET_DATA_LEN as int);
        lemma_greedy_fits(msgs, MAX_PACKET_DATA_LEN as int);
        assert(msg_len(msgs[0]) <= MAX_PACKET_DATA_LEN);
        assert(k >= 1);
        let rest = msgs.skip(k as int);
        law_packets_fit(rest, (max_packets - 1) as nat);
        let all = packed(msgs, max_packets);
        let tail = packed(rest, (max_packets - 1) as nat);
        assert(all == seq![msgs.take(k as int)] + tail);
        assert forall|i: int| 0 <= i < all.len() implies {
            &&& (#[trigger] all[i]).len() >= 1
            &&& total_len(all[i]) <= MAX_PACKET_DATA_LEN
        } by {
            if i > 0 {
                assert(all[i] == tail[i - 1]);
            }
        }
    }
}

/// Whether none of the `i` indices `start`, `start + 1`, ... (wrapping) holds an item in `m`.
pub open spec fn all_absent<X>(m: Map<u16, X>, start: u16, i: nat) -> bool {
    forall|j: int| 0 <= j < i ==> !#[trigger] m.contains_key(wadd(start, j))
}

/// The number of consecutive indices from `start` on that hold no item in `m`, at most `k`.
pub open spec fn free_run<X>(m: Map<u16, X>, start: u16, k: nat) -> nat
    decreases k,
{
    if k == 0 {
        0
    } else if all_absent(m, start, k) {
        k
    } else {
        free_run(m, start, (k - 1) as nat)
    }
}

/// The free run ends at the first index that holds an item.
pub proof fn lemma_free_run<X>(m: Map<u16, X>, start: u16, i: nat, k: nat)
    requires
        i <= k,
        all_absent(m, start, i),
        i == k || m.contains_key(wadd(start, i as int)),
    ensures
        free_run(m, start, k) == i,
    decreases k,
{
    if k > i {
        assert(!all_absent(m, start, k));
        lemma_free_run(m, start, i, (k - 1) as nat);
    }
}

/// After `j` pushes onto a buffer of 32 whose newest index was `newest`, the oldest index of
/// the window is the old window's index `j`; the pushed indices lie 1 to `j` after `newest`.
pub(crate) proof fn lemma_window_step(newest: u16, j: int)
    requires
        0 <= j <= 32,
    ensures
        wsub(wadd(newest, j), 31) == wadd(wsub(newest, 31), j),
        j < 32 ==> !(1 <= dist(wadd(wsub(newest, 31), j), newest) <= j),
        j == 32 ==> wadd(wsub(newest, 31), j) == wadd(newest, 1),
        j < 32 ==> dist(wadd(newest, j + 1), newest) == j + 1,
        dist(wadd(newest, 1), newest) == 1,
{
}

/// Pushing index `j + 1` after `newest`, when the `j + 1` oldest indices of the starting
/// window held nothing and `j` indices were pushed since, drops nothing from the buffer.
#[verifier::spinoff_prover]
#[verifier::rlimit(40)]
pub(crate) proof fn lemma_push_keeps_all<X>(before: Map<u16, X>, m0: Map<u16, X>, newest0: u16, j: int)
    requires
        0 <= j < 32,
        all_absent(m0, wsub(newest0, 31), (j + 1) as nat),
        forall|x: u16| #[trigger] m0.contains_key(x) ==> in_window(newest0, x, 32),
        forall|x: u16|
            #[trigger] before.contains_key(x) <==> (m0.contains_key(x) || 1 <= dist(x, newest0)
                <= j),
    ensures
        keep_window(before, wadd(newest0, j + 1), 32) == before,
        forall|x: u16| #[trigger] m0.contains_key(x) ==> x != wadd(newest0, j + 1),
        dist(wadd(newest0, j + 1), newest0) == j + 1,
{
    let seq = wadd(newest0, j + 1);
    let oldest0 = wsub(newest0, 31);
    lemma_window_step(newest0, j);
    assert(keep_window(before, seq, 32) =~= before) by {
        assert forall|x: u16| #[trigger] before.contains_key(x) implies in_window(seq, x, 32) by {
            if m0.contains_key(x) {
                assert(in_window(newest0, x, 32));
                let t = 31 - dist(newest0, x);
                assert(x == wadd(oldest0, t));
                if t <= j {
                    assert(!m0.contains_key(wadd(oldest0, t)));
                }
                assert(dist(seq, x) == dist(newest0, x) + j + 1);
            } else {
                assert(1 <= dist(x, newest0) <= j);
                assert(dist(seq, x) == j + 1 - dist(x, newest0));
            }
        }
    }
    assert forall|x: u16| #[trigger] m0.contains_key(x) implies x != seq by {
        assert(in_window(newest0, x, 32));
    }
}

/// A free run of `i` indices makes the capped run at least `i` long.
pub proof fn lemma_free_run_ge<X>(m: Map<u16, X>, start: u16, i: nat, k: nat)
    requires
        i <= k,
        all_absent(m, start, i),
    ensures
        free_run(m, start, k) >= i,
    decreases k,
{
    if k > i && !all_absent(m, start, k) {
        lemma_free_run_ge(m, start, i, (k - 1) as nat);
    }
}

/// `a` is the acknowledgement a packet `seq` carries for the reliable packets received in `rr`
/// and the reliable ordered packets received in `orr`.
pub open spec fn is_ack_of<A, B>(
    a: PacketAck,
    seq: u16,
    rr: RingBuffer<A, 32>,
    orr: RingBuffer<B, 32>,
) -> bool {
    &&& a.sequence_id == seq
    &&& a.reliable_newest_received == rr.newest()
    &&& ack_bits_of(a.reliable_ack_bits, rr@, rr.newest())
    &&& a.ordered_newest_received == orr.newest()
    &&& ack_bits_of(a.ordered_ack_bits, orr@, orr.newest())
}

/// `ty` holds the reliable messages `msgs`, ordered or not.
pub open spec fn holds_reliable<S>(ty: PacketData<S>, ordered: bool, msgs: Seq<S>) -> bool {
    match ty {
        PacketData::ReliableOrdered { messages } => ordered && messages@ == msgs,
        PacketData::ReliableUnordered { messages } => !ordered && messages@ == msgs,
        _ => false,
    }
}

/// The number of messages of `queue` from `start` on that fit into one packet together.
pub(crate) fn fit_count_from<S: ByteRepr>(queue: &Vec<S>, start: usize) -> (r: usize)
    requires
        start <= queue@.len(),
    ensures
        r == greedy_count(queue@.skip(start as int), MAX_PACKET_DATA_LEN as int),
        start < queue@.len() && msg_len(queue@[start as int]) <= MAX_PACKET_DATA_LEN ==> r > 0,
        r <= queue@.len() - start,
{
    let mut available: usize = MAX_PACKET_DATA_LEN;
    let mut i: usize = start;
    while i < queue.len()
        invariant_except_break
            start <= i <= queue@.len(),
            available <= MAX_PACKET_DATA_LEN,
            greedy_count(queue@.skip(start as int), MAX_PACKET_DATA_LEN as int) == (i - start)
                + greedy_count(queue@.skip(i as int), available as int),
            i == start ==> available == MAX_PACKET_DATA_LEN,
        ensures
            start <= i <= queue@.len(),
            greedy_count(queue@.skip(start as int), MAX_PACKET_DATA_LEN as int) == i - start,
            start < queue@.len() && msg_len(queue@[start as int]) <= MAX_PACKET_DATA_LEN ==> i
                > start,
        decreases queue@.len() - i,
    {
        proof {
            let rest = queue@.skip(i as int);
            assert(rest[0] == queue@[i as int]);
            assert(rest.drop_first() =~= queue@.skip(i + 1));
        }
        match queue[i].checked_byte_len() {
            Some(len) if len <= available => {
                available = available - len;
                i = i + 1;
            },
            _ => {
                break;
            },
        }
    }
    proof {
        if i == queue@.len() {
            assert(queue@.skip(i as int).len() == 0);
        }
    }
    i - start
}

/// The number of leading messages of `queue` that fit into one packet together; at least one
/// where the first fits.
pub(crate) fn fit_count<S: ByteRepr>(queue: &Vec<S>) -> (r: usize)
    requires
        queue@.len() > 0 ==> msg_len(queue@[0]) <= MAX_PACKET_DATA_LEN,
    ensures
        r == greedy_count(queue@, MAX_PACKET_DATA_LEN as int),
        queue@.len() > 0 ==> r > 0,
        r <= queue@.len(),
{
    assert(queue@.skip(0) =~= queue@);
    fit_count_from(queue, 0)
}

/// The number of free slots at the old end of the window of `ring`: the consecutive indices
/// from its oldest on that hold nothing, which new packets can take without dropping one.
pub fn free_slots<T>(ring: &RingBuffer<T, 32>) -> (r: usize)
    requires
        ring.wf(),
    ensures
        r == free_run(ring@, wsub(ring.newest(), 31), 32),
{
    let start = ring.get_newest_index().wrapping_sub(31);
    let mut k: u16 = 0;
    while k < 32
        invariant
            ring.wf(),
            start == wsub(ring.newest(), 31),
            k <= 32,
            all_absent(ring@, start, k as nat),
        decreases 32 - k,
    {
        let idx = start.wrapping_add(k);
        assert(idx == wadd(start, k as int));
        if ring.get(idx).is_some() {
            proof {
                lemma_free_run(ring@, start, k as nat, 32);
            }
            return k as usize;
        }
        k = k + 1;
    }
    proof {
        lemma_free_run(ring@, start, 32, 32);
    }
    32
}

/// Whether packing `queue` into at most `max_packets` packets finds a message that fits at the
/// head of every packet; see [`packs_fit`].
pub fn packs_fit_check<S: ByteRepr>(queue: &Vec<S>, max_packets: usize) -> (r: bool)
    ensures
        r == packs_fit(queue@, max_packets as nat),
{
    let mut pos: usize = 0;
    let mut b: usize = max_packets;
    assert(queue@.skip(0) =~= queue@);
    while b > 0 && pos < queue.len()
        invariant
            pos <= queue@.len(),
            packs_fit(queue@, max_packets as nat) == packs_fit(queue@.skip(pos as int), b as nat),
        decreases b,
    {
        let head_fits = match queue[pos].checked_byte_len() {
            Some(l) => l <= MAX_PACKET_DATA_LEN,
            None => false,
        };
        proof {
            let rest = queue@.skip(pos as int);
            assert(rest[0] == queue@[pos as int]);
        }
        if !head_fits {
            return false;
        }
        let k = fit_count_from(queue, pos);
        proof {
            assert(queue@.skip(pos as int).skip(k as int) =~= queue@.skip(pos + k));
        }
        pos = pos + k;
        b = b - 1;
    }
    proof {
        if pos == queue@.len() {
            assert(queue@.skip(pos as int).len() == 0);
        }
    }
    true
}

/// What flushing the messages `q0` onto the pending packets `r0` as new reliable packets
/// (ordered or not) gives, as [`flush_reliable`] does: the messages left `q1` and the pending
/// packets `r1`. The packets acknowledge what `rr` and `orr` hold.
pub open spec fn reliable_flushed<S: ByteRepr, A, B>(
    r1: RingBuffer<PendingPacket<S>, 32>,
    r0: RingBuffer<PendingPacket<S>, 32>,
    q0: Seq<S>,
    q1: Seq<S>,
    ordered: bool,
    rr: RingBuffer<A, 32>,
    orr: RingBuffer<B, 32>,
) -> bool {
    let m0 = r0@;
    let newest0 = r0.newest();
    let chunks = packed(q0, free_run(m0, wsub(newest0, 31), 32));
    let p = chunks.len();
    &&& q0 == chunks.flatten_alt() + q1
    &&& r1.newest() == wadd(newest0, p as int)
    &&& forall|x: u16| #[trigger] r1@.contains_key(x) <==> (m0.contains_key(x) || 1 <= dist(x, newest0) <= p)
    &&& forall|x: u16| #[trigger] m0.contains_key(x) ==> r1@[x] == m0[x]
    &&& forall|j: int| 0 <= j < p ==> {
        let pp = #[trigger] r1@[wadd(newest0, j + 1)];
        &&& pp.resend_context == (ResendContext { last_send_ms: None, times_sent: 0 })
        &&& is_ack_of(pp.packet.ack, wadd(newest0, j + 1), rr, orr)
        &&& holds_reliable(pp.packet.ty, ordered, chunks[j])
    }
}

/// What flushing all messages `q0` into new unreliable packets appended to `p0`, numbered from
/// `id0` on, gives, as [`flush_unreliable`] does: the packets `p1` and the next id `id1`. The
/// packets acknowledge what `rr` and `orr` hold.
pub open spec fn unreliable_flushed<S: ByteRepr, A, B>(
    p1: Seq<Packet<S>>,
    p0: Seq<Packet<S>>,
    q0: Seq<S>,
    q1: Seq<S>,
    id1: u16,
    id0: u16,
    rr: RingBuffer<A, 32>,
    orr: RingBuffer<B, 32>,
) -> bool {
    let chunks = packed(q0, q0.len());
    let p = chunks.len();
    let n0 = p0.len();
    &&& q0 == chunks.flatten_alt()
    &&& q1.len() == 0
    &&& id1 == wadd(id0, p as int)
    &&& p1.len() == n0 + p
    &&& p1.subrange(0, n0 as int) == p0
    &&& forall|j: int| 0 <= j < p ==> {
        let pk = #[trigger] p1[n0 + j];
        &&& is_ack_of(pk.ack, wadd(id0, j), rr, orr)
        &&& holds_unreliable(pk.ty, chunks[j])
    }
}

/// Put the leading messages of `queue` into new reliable packets pushed onto `send_packets`,
/// as long as a push would not drop a pending packet: each packet takes as many of the
/// messages left as fit into it. The packets acknowledge what `rr` and `orr` hold.
#[verifier::spinoff_prover]
#[verifier::rlimit(60)]
fn flush_reliable<S: ByteRepr, A, B>(
    send_packets: &mut RingBuffer<PendingPacket<S>, 32>,
    rr: &RingBuffer<A, 32>,
    orr: &RingBuffer<B, 32>,
    queue: &mut Vec<S>,
    ordered: bool,
    resend: &FixedResend,
)
    requires
        old(send_packets).wf(),
        rr.wf(),
        orr.wf(),
        packs_fit(
            old(queue)@,
            free_run(old(send_packets)@, wsub(old(send_packets).newest(), 31), 32),
        ),
    ensures
        final(send_packets).wf(),
        reliable_flushed(*final(send_packets), *old(send_packets), old(queue)@, final(queue)@, ordered, *rr, *orr),
{
    let ghost m0 = send_packets@;
    let ghost newest0 = send_packets.newest();
    let ghost oldest0 = wsub(newest0, 31);
    let ghost q0 = queue@;
    let ghost total = free_run(m0, oldest0, 32);
    let ghost mut chunks: Seq<Seq<S>> = Seq::empty();
    let mut j: u16 = 0;
    proof {
        assert(q0 =~= chunks.flatten_alt() + queue@);
        assert(packed(q0, total) =~= chunks + packed(queue@, total));
        assert forall|x: u16| #[trigger] m0.contains_key(x) implies in_window(newest0, x, 32) by {
            old(send_packets).lemma_view_in_window(x);
        }
    }
    while !send_packets.push_will_override() && queue.len() > 0
        invariant
            send_packets.wf(),
            rr.wf(),
            orr.wf(),
            m0 == old(send_packets)@,
            newest0 == old(send_packets).newest(),
            oldest0 == wsub(newest0, 31),
            q0 == old(queue)@,
            total == free_run(m0, oldest0, 32),
            j <= 32,
            j == chunks.len(),
            all_absent(m0, oldest0, j as nat),
            forall|x: u16| #[trigger] m0.contains_key(x) ==> in_window(newest0, x, 32),
            send_packets.newest() == wadd(newest0, j as int),
            q0 == chunks.flatten_alt() + queue@,
            j <= total,
            packs_fit(queue@, (total - j) as nat),
            packed(q0, total) == chunks + packed(queue@, (total - j) as nat),
            forall|x: u16| #[trigger] send_packets@.contains_key(x) <==> (m0.contains_key(x) || 1 <= dist(x, newest0) <= j),
            forall|x: u16| #[trigger] m0.contains_key(x) ==> send_packets@[x] == m0[x],
            forall|i: int| 0 <= i < j ==> {
                let pp = #[trigger] send_packets@[wadd(newest0, i + 1)];
                &&& pp.resend_context == (ResendContext { last_send_ms: None, times_sent: 0 })
                &&& is_ack_of(pp.packet.ack, wadd(newest0, i + 1), *rr, *orr)
                &&& holds_reliable(pp.packet.ty, ordered, chunks[i])
            },
        decreases 32 - j,
    {
        let ghost before = send_packets@;
        let ghost queue_before = queue@;
        proof {
            // The oldest index of the current window is the starting window's index `j`.
            lemma_window_step(newest0, j as int);
            assert(!before.contains_key(wadd(oldest0, j as int)));
            if j == 32 {
                assert(before.contains_key(wadd(newest0, 1)));
            }
            assert(j < 32);
            assert(!m0.contains_key(wadd(oldest0, j as int)));
            assert(all_absent(m0, oldest0, (j + 1) as nat));
            lemma_free_run_ge(m0, oldest0, (j + 1) as nat, 32);
        }
        let k = fit_count(queue);
        let mut messages = queue.split_off(k);
        std::mem::swap(queue, &mut messages);
        let seq = send_packets.get_next_index();
        let ack = PacketAck::new(seq, rr, orr);
        let ghost chunk = messages@;
        let ty = if ordered {
            PacketData::ReliableOrdered { messages }
        } else {
            PacketData::ReliableUnordered { messages }
        };
        let packet = Packet { ack, ty };
        let resend_context = resend.new_packet(
            if ordered {
                ReliablePacketKind::Ordered
            } else {
                ReliablePacketKind::Unordered
            },
        );
        let ghost pp = PendingPacket { resend_context, packet };
        send_packets.push(PendingPacket { resend_context, packet });
        proof {
            crate::ring_buffer::lemma_wadd_step(newest0, j as int);
            assert(seq == wadd(newest0, j + 1));
            assert(dist(seq, newest0) == j + 1);
            assert(chunk == queue_before.take(k as int));
            assert(queue@ == queue_before.skip(k as int));
            // Nothing falls out of the window: its oldest index held nothing.
            lemma_push_keeps_all(before, m0, newest0, j as int);
            assert(send_packets@ == before.insert(seq, pp));
            let chunks2 = chunks.push(chunk);
            assert(chunks2.drop_last() =~= chunks);
            assert(chunks2.flatten_alt() == chunks.flatten_alt() + chunk);
            assert(queue_before =~= chunk + queue@);
            assert(q0 =~= chunks2.flatten_alt() + queue@);
            assert(greedy_count(queue_before, MAX_PACKET_DATA_LEN as int) == k);
            assert(packed(queue_before, (total - j) as nat) =~= seq![chunk] + packed(
                queue@,
                (total - j - 1) as nat,
            ));
            assert(packed(q0, total) =~= chunks2 + packed(queue@, (total - j - 1) as nat));
            assert forall|i: int| 0 <= i < j + 1 implies {
                let pq = #[trigger] send_packets@[wadd(newest0, i + 1)];
                &&& pq.resend_context == (ResendContext { last_send_ms: None, times_sent: 0 })
                &&& is_ack_of(pq.packet.ack, wadd(newest0, i + 1), *rr, *orr)
                &&& holds_reliable(pq.packet.ty, ordered, chunks2[i])
            } by {
                if i < j {
                    lemma_window_step(newest0, i);
                    assert(wadd(newest0, i + 1) != seq);
                    assert(chunks2[i] == chunks[i]);
                } else {
                    assert(wadd(newest0, i + 1) == seq);
                }
            }
            chunks = chunks2;
        }
        j = j + 1;
    }
    proof {
        if queue@.len() > 0 {
            lemma_window_step(newest0, j as int);
            if j < 32 {
                assert(m0.contains_key(wadd(oldest0, j as int)));
                lemma_free_run(m0, oldest0, j as nat, 32);
            } else {
                lemma_free_run(m0, oldest0, 32, 32);
            }
            assert(total == j);
        }
        assert(packed(queue@, (total - j) as nat) =~= Seq::<Seq<S>>::empty());
        assert(packed(q0, total) =~= chunks);
    }
}

/// Stepping once more from `wadd(a, j)` is stepping `j + 1` from `a`.
proof fn lemma_wadd_succ(a: u16, j: int)
    requires
        j >= 0,
    ensures
        wadd(wadd(a, j), 1) == wadd(a, j + 1),
{
    vstd::arithmetic::div_mod::lemma_add_mod_noop(a + j, 1, 0x1_0000);
}

/// `ty` holds the unreliable messages `msgs`.
pub open spec fn holds_unreliable<S>(ty: PacketData<S>, msgs: Seq<S>) -> bool {
    match ty {
        PacketData::Unreliable { messages } => messages@ == msgs,
        _ => false,
    }
}

/// Put all messages of `queue` into new unreliable packets appended to `packets`, numbered
/// from `*id` on: each packet takes as many of the messages left as fit into it. The packets
/// acknowledge what `rr` and `orr` hold.
fn flush_unreliable<S: ByteRepr, A, B>(
    queue: &mut Vec<S>,
    packets: &mut VecDeque<Packet<S>>,
    id: &mut u16,
    rr: &RingBuffer<A, 32>,
    orr: &RingBuffer<B, 32>,
)
    requires
        rr.wf(),
        orr.wf(),
        packs_fit(old(queue)@, old(queue)@.len()),
    ensures
        unreliable_flushed(final(packets)@, old(packets)@, old(queue)@, final(queue)@, *final(id), *old(id), *rr, *orr),
{
    let ghost q0 = queue@;
    let ghost id0 = *id;
    let ghost n0 = packets@.len();
    let ghost p0 = packets@;
    let ghost mut chunks: Seq<Seq<S>> = Seq::empty();
    proof {
        assert(q0 =~= chunks.flatten_alt() + queue@);
        assert(packed(q0, q0.len()) =~= chunks + packed(queue@, q0.len()));
        assert(packets@.subrange(0, n0 as int) =~= p0);
    }
    while queue.len() > 0
        invariant
            rr.wf(),
            orr.wf(),
            q0 == old(queue)@,
            id0 == *old(id),
            n0 == old(packets)@.len(),
            p0 == old(packets)@,
            packs_fit(queue@, (q0.len() - chunks.len()) as nat),
            chunks.len() + queue@.len() <= q0.len(),
            q0 == chunks.flatten_alt() + queue@,
            packed(q0, q0.len()) == chunks + packed(queue@, (q0.len() - chunks.len()) as nat),
            *id == wadd(id0, chunks.len() as int),
            packets@.len() == n0 + chunks.len(),
            packets@.subrange(0, n0 as int) == p0,
            forall|j: int| 0 <= j < chunks.len() ==> {
                let pk = #[trigger] packets@[n0 + j];
                &&& is_ack_of(pk.ack, wadd(id0, j), *rr, *orr)
                &&& holds_unreliable(pk.ty, chunks[j])
            },
        decreases queue@.len(),
    {
        let ghost queue_before = queue@;
        let ghost packets_before = packets@;
        let k = fit_count(queue);
        let mut messages = queue.split_off(k);
        std::mem::swap(queue, &mut messages);
        let ghost chunk = messages@;
        let seq = *id;
        *id = id.wrapping_add(1);
        let ack = PacketAck::new(seq, rr, orr);
        packets.push_back(Packet { ack, ty: PacketData::Unreliable { messages } });
        proof {
            let j: int = chunks.len() as int;
            assert(chunk == queue_before.take(k as int));
            assert(queue@ == queue_before.skip(k as int));
            let chunks2 = chunks.push(chunk);
            assert(chunks2.drop_last() =~= chunks);
            assert(queue_before =~= chunk + queue@);
            assert(q0 =~= chunks2.flatten_alt() + queue@);
            assert(packed(queue_before, (q0.len() - j) as nat) =~= seq![chunk] + packed(
                queue@,
                (q0.len() - j - 1) as nat,
            ));
            assert(packed(q0, q0.len()) =~= chunks2 + packed(queue@, (q0.len() - j - 1) as nat));
            assert(packets@.subrange(0, n0 as int) =~= p0) by {
                assert(packets@ == packets_before.push(packets@[n0 + j]));
                assert(packets_before.subrange(0, n0 as int) == p0);
            }
            assert(*id == wadd(id0, j + 1)) by {
                lemma_wadd_succ(id0, j);
            }
            assert forall|i: int| 0 <= i < j + 1 implies {
                let pk = #[trigger] packets@[n0 + i];
                &&& is_ack_of(pk.ack, wadd(id0, i), *rr, *orr)
                &&& holds_unreliable(pk.ty, chunks2[i])
            } by {
                if i < j {
                    assert(packets@[n0 + i] == packets_before[n0 + i]);
                    assert(chunks2[i] == chunks[i]);
                }
            }
            chunks = chunks2;
        }
    }
    proof {
        assert(packed(queue@, (q0.len() - chunks.len()) as nat) =~= Seq::<Seq<S>>::empty());
        assert(packed(q0, q0.len()) =~= chunks);
        assert(q0 =~= chunks.flatten_alt());
    }
}

/// The frame that carries packet `p` for `version`: its CRC and its bytes; `None` where its
/// length does not fit a `usize`.
pub open spec fn frame_of<S: ByteRepr>(version: u32, p: Packet<S>) -> Option<Seq<u8>> {
    let enc = Packet::<S>::spec_to_bytes(p.deep_view());
    if enc.len() + 4 <= usize::MAX {
        Some(spec_frame(version, enc))
    } else {
        None
    }
}

/// `frames` with the frame `f` appended, if there is one.
pub open spec fn push_frame(frames: Seq<Seq<u8>>, f: Option<Seq<u8>>) -> Seq<Seq<u8>> {
    match f {
        Some(x) => frames.push(x),
        None => frames,
    }
}

/// The bytes of each frame.
pub open spec fn frame_views(frames: Seq<Vec<u8>>) -> Seq<Seq<u8>> {
    frames.map_values(|f: Vec<u8>| f@)
}

/// Going through the `k` indices from `start` on of the pending packets `m` at `now`: each
/// packet that is due is sent (its frame is appended) and recorded as sent; one sent for the
/// last time is dropped. Gives the frames and the pending packets afterwards.
pub open spec fn spec_resend_all<S: ByteRepr>(
    cfg: FixedResend,
    version: u32,
    m: Map<u16, PendingPacket<S>>,
    start: u16,
    k: nat,
    now: u64,
) -> (Seq<Seq<u8>>, Map<u16, PendingPacket<S>>)
    decreases k,
{
    if k == 0 {
        (Seq::empty(), m)
    } else {
        let prev = spec_resend_all(cfg, version, m, start, (k - 1) as nat, now);
        let idx = wadd(start, k - 1);
        if !prev.1.contains_key(idx) {
            prev
        } else {
            let pp = prev.1[idx];
            let (act, ctx) = spec_resend(cfg, pp.resend_context, now);
            let sent = PendingPacket { resend_context: ctx, packet: pp.packet };
            let frames = push_frame(prev.0, frame_of(version, pp.packet));
            match act {
                ResendAction::DoNotResend => prev,
                ResendAction::Resend => (frames, prev.1.insert(idx, sent)),
                ResendAction::ResendThenDrop => (frames, prev.1.remove(idx)),
            }
        }
    }
}

/// The frames of the packets `ps`, in order, leaving out those that cannot be framed.
pub open spec fn frames_of<S: ByteRepr>(version: u32, ps: Seq<Packet<S>>) -> Seq<Seq<u8>>
    decreases ps.len(),
{
    if ps.len() == 0 {
        Seq::empty()
    } else {
        push_frame(frames_of(version, ps.drop_last()), frame_of(version, ps.last()))
    }
}

/// The frame carrying `packet` for `version`.
fn encode_frame<S: ByteRepr>(packet: &Packet<S>, version: u32) -> (r: Option<Vec<u8>>)
    ensures
        match (r, frame_of(version, *packet)) {
            (Some(f), Some(g)) => f@ == g,
            (None, None) => true,
            _ => false,
        },
{
    match packet.checked_byte_len() {
        None => None,
        Some(n) => {
            if n > usize::MAX - 4 {
                return None;
            }
            let mut buf: Vec<u8> = vec![0u8; n + 4];
            let r = write_frame(packet, version, buf.as_mut_slice());
            match r {
                Ok(_) => {
                    assert(buf@.subrange(0, 4 + n as int) =~= buf@);
                    Some(buf)
                },
                Err(_) => None,
            }
        },
    }
}

/// Send the pending packets of `ring` that are due at `now`, oldest first, appending their
/// frames to `frames`; drop those sent for the last time.
fn resend_pending<S: ByteRepr>(
    ring: &mut RingBuffer<PendingPacket<S>, 32>,
    cfg: &FixedResend,
    version: u32,
    now: u64,
    frames: &mut Vec<Vec<u8>>,
)
    requires
        old(ring).wf(),
    ensures
        final(ring).wf(),
        final(ring).newest() == old(ring).newest(),
        ({
            let res = spec_resend_all(
                *cfg,
                version,
                old(ring)@,
                wsub(old(ring).newest(), 31),
                32,
                now,
            );
            &&& final(ring)@ == res.1
            &&& frame_views(final(frames)@) == frame_views(old(frames)@) + res.0
        }),
{
    let start = ring.get_newest_index().wrapping_sub(31);
    let ghost m0 = ring@;
    let ghost f0 = frame_views(frames@);
    let mut k: u16 = 0;
    proof {
        assert(frame_views(frames@) =~= f0 + Seq::<Seq<u8>>::empty());
    }
    while k < 32
        invariant
            ring.wf(),
            ring.newest() == old(ring).newest(),
            start == wsub(old(ring).newest(), 31),
            m0 == old(ring)@,
            f0 == frame_views(old(frames)@),
            k <= 32,
            ring@ == spec_resend_all(*cfg, version, m0, start, k as nat, now).1,
            frame_views(frames@) == f0 + spec_resend_all(*cfg, version, m0, start, k as nat, now).0,
        decreases 32 - k,
    {
        let idx = start.wrapping_add(k);
        let ghost fv = frame_views(frames@);
        let mut drop = false;
        match ring.get_mut(idx) {
            Some(pp) => {
                let action = cfg.resend(&mut pp.resend_context, now);
                match action {
                    ResendAction::DoNotResend => {},
                    _ => {
                        match encode_frame(&pp.packet, version) {
                            Some(f) => {
                                frames.push(f);
                                proof {
                                    assert(frame_views(frames@) =~= fv.push(f@));
                                }
                            },
                            None => {},
                        }
                        if action == ResendAction::ResendThenDrop {
                            drop = true;
                        }
                    },
                }
            },
            None => {},
        }
        if drop {
            ring.take(idx);
        }
        proof {
            assert(ring@ =~= spec_resend_all(*cfg, version, m0, start, (k + 1) as nat, now).1);
            assert(frame_views(frames@) =~= f0 + spec_resend_all(
                *cfg,
                version,
                m0,
                start,
                (k + 1) as nat,
                now,
            ).0);
        }
        k = k + 1;
    }
}

/// Send all packets of `packets`, in order, appending their frames to `frames`.
fn send_all<S: ByteRepr>(packets: &mut VecDeque<Packet<S>>, version: u32, frames: &mut Vec<Vec<u8>>)
    ensures
        final(packets)@.len() == 0,
        frame_views(final(frames)@) == frame_views(old(frames)@) + frames_of(version, old(packets)@),
{
    let ghost p0 = packets@;
    let ghost f0 = frame_views(frames@);
    let ghost mut done: Seq<Packet<S>> = Seq::empty();
    proof {
        assert(p0 =~= done + packets@);
        assert(frame_views(frames@) =~= f0 + frames_of(version, done));
    }
    while packets.len() > 0
        invariant
            p0 == old(packets)@,
            f0 == frame_views(old(frames)@),
            p0 == done + packets@,
            frame_views(frames@) == f0 + frames_of(version, done),
        decreases packets@.len(),
    {
        let ghost fv = frame_views(frames@);
        let packet = packets.pop_front().unwrap();
        match encode_frame(&packet, version) {
            Some(f) => {
                frames.push(f);
                proof {
                    assert(frame_views(frames@) =~= fv.push(f@));
                }
            },
            None => {},
        }
        proof {
            let done2 = done.push(packet);
            assert(done2.drop_last() =~= done);
            assert(p0 =~= done2 + packets@);
            assert(frame_views(frames@) =~= f0 + frames_of(version, done2));
            done = done2;
        }
    }
    proof {
        assert(done =~= p0);
    }
}

/// The state of one side of a connection.
pub struct InnerUdpCommunicator<S, R> {
    /// Reliable unordered packets sent and not acknowledged yet.
    pub reliable_send_packets: RingBuffer<PendingPacket<S>, 32>,
    /// Reliable ordered packets sent and not acknowledged yet.
    pub reliable_ordered_send_packets: RingBuffer<PendingPacket<S>, 32>,
    /// The ids of the reliable unordered packets received.
    pub reliable_received_packets: RingBuffer<(), 32>,
    /// The reliable ordered packets received, with the messages not handed out yet.
    pub reliable_ordered_received_packets: RingBuffer<Vec<R>, 32>,
    /// The sequence id of the next ordered packet to be read.
    pub ordered_read_packet_head: u16,
    /// The sequence id of the next unreliable packet.
    pub unreliable_send_packet_id: u16,
    /// Unreliable packets waiting to be sent.
    pub unreliable_send_packets: VecDeque<Packet<S>>,
    /// Messages waiting to be put into reliable unordered packets.
    pub reliable_send_queue: Vec<S>,
    /// Messages waiting to be put into reliable ordered packets.
    pub reliable_ordered_send_queue: Vec<S>,
    /// Messages waiting to be put into unreliable packets.
    pub unreliable_send_queue: Vec<S>,
    /// Unreliable and reliable unordered messages received and not read yet.
    pub unordered_recv_queue: VecDeque<R>,
    /// Reliable ordered messages received, in order, and not read yet.
    pub ordered_recv_queue: VecDeque<R>,
    /// Set when a packet was received more than once, meaning that the other side may be
    /// waiting for an acknowledgement.
    pub received_packet_duplicate: bool,
    /// Set when a packet was received since the last send, heartbeats included: the next send
    /// owes the other side the acknowledgements.
    pub received_since_send: bool,
    /// When the last packet was received.
    pub last_seen: u64,
    /// When the last packet was sent.
    pub last_send: u64,
    /// How unacknowledged packets are resent.
    pub resend: FixedResend,
    /// The protocol version, which seeds the CRC of every frame: frames of communicators with
    /// another version fail the check.
    pub protocol_version: u32,
}

impl<S, R> InnerUdpCommunicator<S, R> {
    /// The invariant: all ring buffers are well formed.
    pub open spec fn wf(&self) -> bool {
        &&& self.reliable_send_packets.wf()
        &&& self.reliable_ordered_send_packets.wf()
        &&& self.reliable_received_packets.wf()
        &&& self.reliable_ordered_received_packets.wf()
    }

    /// Everything that receiving leaves alone is the same in `self` and `o`: what is queued and
    /// pending to be sent.
    pub open spec fn same_send_side(&self, o: &Self) -> bool {
        &&& self.unreliable_send_packet_id == o.unreliable_send_packet_id
        &&& self.unreliable_send_packets == o.unreliable_send_packets
        &&& self.reliable_send_queue == o.reliable_send_queue
        &&& self.reliable_ordered_send_queue == o.reliable_ordered_send_queue
        &&& self.unreliable_send_queue == o.unreliable_send_queue
        &&& self.last_send == o.last_send
        &&& self.resend == o.resend
        &&& self.protocol_version == o.protocol_version
    }

    /// The pending packets of `self` are those of `o`, minus the ones `ack` acknowledges.
    pub open spec fn acknowledged(&self, o: &Self, ack: PacketAck) -> bool {
        &&& self.reliable_send_packets.newest() == o.reliable_send_packets.newest()
        &&& self.reliable_send_packets@ == o.reliable_send_packets@.remove_keys(
            acked_indices(ack.reliable_newest_received, ack.reliable_ack_bits),
        )
        &&& self.reliable_ordered_send_packets.newest() == o.reliable_ordered_send_packets.newest()
        &&& self.reliable_ordered_send_packets@ == o.reliable_ordered_send_packets@.remove_keys(
            acked_indices(ack.ordered_newest_received, ack.ordered_ack_bits),
        )
    }

    /// The pending packets of `self` and `o` are the same.
    pub open spec fn same_pending(&self, o: &Self) -> bool {
        &&& self.reliable_send_packets == o.reliable_send_packets
        &&& self.reliable_ordered_send_packets == o.reliable_ordered_send_packets
    }

    /// What was received is the same in `self` and `o`.
    pub open spec fn same_recv_side(&self, o: &Self) -> bool {
        &&& self.reliable_received_packets == o.reliable_received_packets
        &&& self.reliable_ordered_received_packets == o.reliable_ordered_received_packets
        &&& self.ordered_read_packet_head == o.ordered_read_packet_head
        &&& self.unordered_recv_queue == o.unordered_recv_queue
        &&& self.ordered_recv_queue == o.ordered_recv_queue
    }

    /// A communicator for `protocol_version` that has sent and received nothing, created at
    /// `now_ms`.
    pub fn new(protocol_version: u32, now_ms: u64) -> (r: Self)
        ensures
            r.protocol_version == protocol_version,
            r.wf(),
            r.reliable_send_packets@ == Map::<u16, PendingPacket<S>>::empty(),
            r.reliable_ordered_send_packets@ == Map::<u16, PendingPacket<S>>::empty(),
            r.reliable_received_packets@ == Map::<u16, ()>::empty(),
            r.reliable_ordered_received_packets@ == Map::<u16, Vec<R>>::empty(),
            r.reliable_received_packets.newest() == u16::MAX,
            r.reliable_ordered_received_packets.newest() == u16::MAX,
            r.ordered_read_packet_head == 0,
            r.unreliable_send_packet_id == 0,
            r.unreliable_send_packets@ == Seq::<Packet<S>>::empty(),
            r.reliable_send_queue@ == Seq::<S>::empty(),
            r.reliable_ordered_send_queue@ == Seq::<S>::empty(),
            r.unreliable_send_queue@ == Seq::<S>::empty(),
            r.unordered_recv_queue@ == Seq::<R>::empty(),
            r.ordered_recv_queue@ == Seq::<R>::empty(),
            !r.received_packet_duplicate,
            !r.received_since_send,
            r.last_seen == now_ms,
            r.last_send == now_ms,
            r.resend.resend_interval_ms == 100,
            r.resend.max_retries == 100,
    {
        InnerUdpCommunicator {
            reliable_send_packets: RingBuffer::new(),
            reliable_ordered_send_packets: RingBuffer::new(),
            reliable_received_packets: RingBuffer::new(),
            reliable_ordered_received_packets: RingBuffer::new(),
            ordered_read_packet_head: 0,
            unreliable_send_packet_id: 0,
            unreliable_send_packets: VecDeque::new(),
            reliable_send_queue: Vec::new(),
            reliable_ordered_send_queue: Vec::new(),
            unreliable_send_queue: Vec::new(),
            unordered_recv_queue: VecDeque::new(),
            ordered_recv_queue: VecDeque::new(),
            received_packet_duplicate: false,
            received_since_send: false,
            last_seen: now_ms,
            last_send: now_ms,
            resend: FixedResend::new(),
            protocol_version,
        }
    }

    /// Queue a message to be sent unreliably.
    pub fn write(&mut self, message: S)
        ensures
            *final(self) == (InnerUdpCommunicator {
                unreliable_send_queue: final(self).unreliable_send_queue,
                ..*old(self)
            }),
            final(self).unreliable_send_queue@ == old(self).unreliable_send_queue@.push(message),
    {
        self.unreliable_send_queue.push(message);
    }

    /// Queue a message to be sent reliably, but not necessarily in order.
    pub fn write_reliable(&mut self, message: S)
        ensures
            *final(self) == (InnerUdpCommunicator {
                reliable_send_queue: final(self).reliable_send_queue,
                ..*old(self)
            }),
            final(self).reliable_send_queue@ == old(self).reliable_send_queue@.push(message),
    {
        self.reliable_send_queue.push(message);
    }

    /// Queue a message to be sent reliably, in order. The receiver hands it out only after all
    /// ordered messages sent before it.
    pub fn write_ordered(&mut self, message: S)
        ensures
            *final(self) == (InnerUdpCommunicator {
                reliable_ordered_send_queue: final(self).reliable_ordered_send_queue,
                ..*old(self)
            }),
            final(self).reliable_ordered_send_queue@ == old(self).reliable_ordered_send_queue@.push(
                message,
            ),
    {
        self.reliable_ordered_send_queue.push(message);
    }

    /// The next unreliable or reliable unordered message received, if any.
    pub fn read(&mut self) -> (r: Option<R>)
        ensures
            *final(self) == (InnerUdpCommunicator {
                unordered_recv_queue: final(self).unordered_recv_queue,
                ..*old(self)
            }),
            old(self).unordered_recv_queue@.len() == 0 ==> r is None
                && final(self).unordered_recv_queue@ == old(self).unordered_recv_queue@,
            old(self).unordered_recv_queue@.len() > 0 ==> r == Some(
                old(self).unordered_recv_queue@[0],
            ) && final(self).unordered_recv_queue@ == old(self).unordered_recv_queue@.drop_first(),
    {
        self.unordered_recv_queue.pop_front()
    }

    /// The next reliable ordered message received, if any.
    pub fn read_ordered(&mut self) -> (r: Option<R>)
        ensures
            *final(self) == (InnerUdpCommunicator {
                ordered_recv_queue: final(self).ordered_recv_queue,
                ..*old(self)
            }),
            old(self).ordered_recv_queue@.len() == 0 ==> r is None
                && final(self).ordered_recv_queue@ == old(self).ordered_recv_queue@,
            old(self).ordered_recv_queue@.len() > 0 ==> r == Some(old(self).ordered_recv_queue@[0])
                && final(self).ordered_recv_queue@ == old(self).ordered_recv_queue@.drop_first(),
    {
        self.ordered_recv_queue.pop_front()
    }

    /// Whether any message is queued to be sent or any packet waits to be sent or
    /// acknowledged.
    pub fn has_work(&self) -> (r: bool)
        requires
            self.wf(),
        ensures
            r == !(self.reliable_send_packets@.is_empty()
                && self.reliable_ordered_send_packets@.is_empty()
                && self.unreliable_send_packets@.len() == 0
                && self.reliable_send_queue@.len() == 0
                && self.reliable_ordered_send_queue@.len() == 0
                && self.unreliable_send_queue@.len() == 0),
    {
        let a = self.reliable_send_packets.is_empty();
        let b = self.reliable_ordered_send_packets.is_empty();
        proof {
            lemma_empty_count(&self.reliable_send_packets);
            lemma_empty_count(&self.reliable_ordered_send_packets);
        }
        !(a && b && self.unreliable_send_packets.len() == 0 && self.reliable_send_queue.len() == 0
            && self.reliable_ordered_send_queue.len() == 0 && self.unreliable_send_queue.len()
            == 0)
    }
}

impl<S, R> InnerUdpCommunicator<S, R> {
    /// Drop the pending packets that `ack` acknowledges.
    pub fn acknowledge(&mut self, ack: &PacketAck)
        requires
            old(self).wf(),
        ensures
            final(self).wf(),
            final(self).acknowledged(old(self), *ack),
            final(self).same_send_side(old(self)),
            final(self).same_recv_side(old(self)),
            final(self).received_packet_duplicate == old(self).received_packet_duplicate,
            final(self).received_since_send == old(self).received_since_send,
            final(self).last_seen == old(self).last_seen,
    {
        acknowledge_pending(
            &mut self.reliable_send_packets,
            ack.reliable_newest_received,
            ack.reliable_ack_bits,
        );
        acknowledge_pending(
            &mut self.reliable_ordered_send_packets,
            ack.ordered_newest_received,
            ack.ordered_ack_bits,
        );
    }

    /// Hand out the messages of the ordered packets received, in order, starting at the read
    /// head: the packets from the head on hold the messages up to the first index without a
    /// packet, and the head moves past them.
    fn deliver_ordered(&mut self)
        requires
            old(self).wf(),
        ensures
            final(self).wf(),
            ({
                let m = vec_views(old(self).reliable_ordered_received_packets@);
                let head = old(self).ordered_read_packet_head;
                let k = run_len(m, head, 32);
                &&& final(self).reliable_ordered_received_packets.newest()
                    == old(self).reliable_ordered_received_packets.newest()
                &&& vec_views(final(self).reliable_ordered_received_packets@) == drain_run(m, head, k)
                &&& final(self).ordered_read_packet_head == wadd(head, k as int)
                &&& final(self).ordered_recv_queue@ == old(self).ordered_recv_queue@ + run_msgs(m, head, k)
            }),
            final(self).same_send_side(old(self)),
            final(self).same_pending(old(self)),
            final(self).reliable_received_packets == old(self).reliable_received_packets,
            final(self).unordered_recv_queue == old(self).unordered_recv_queue,
            final(self).received_packet_duplicate == old(self).received_packet_duplicate,
            final(self).received_since_send == old(self).received_since_send,
            final(self).last_seen == old(self).last_seen,
    {
        deliver_run(
            &mut self.reliable_ordered_received_packets,
            &mut self.ordered_read_packet_head,
            &mut self.ordered_recv_queue,
        );
    }
}

impl<S, R> InnerUdpCommunicator<S, R> {
    /// The ordered packet `seq` holding `messages` was accepted into `o`, giving `self`: it is
    /// stored, and the messages of the ordered packets from the read head on are handed out up
    /// to the first missing packet.
    pub open spec fn ordered_accepted(&self, o: &Self, seq: u16, messages: Vec<R>) -> bool {
        let ins = spec_insert(
            o.reliable_ordered_received_packets@,
            o.reliable_ordered_received_packets.newest(),
            seq,
            messages,
            32,
        );
        let m = vec_views(ins.1);
        let head = o.ordered_read_packet_head;
        let k = run_len(m, head, 32);
        &&& self.reliable_ordered_received_packets.newest() == ins.0
        &&& vec_views(self.reliable_ordered_received_packets@) == drain_run(m, head, k)
        &&& self.ordered_read_packet_head == wadd(head, k as int)
        &&& self.ordered_recv_queue@ == o.ordered_recv_queue@ + run_msgs(m, head, k)
        &&& self.reliable_received_packets == o.reliable_received_packets
        &&& self.unordered_recv_queue == o.unordered_recv_queue
    }

    /// The unordered packet `seq` holding `messages` was accepted into `o`, giving `self`: its
    /// id is recorded and its messages are appended to the unordered messages.
    pub open spec fn unordered_accepted(&self, o: &Self, seq: u16, messages: Seq<R>) -> bool {
        let ins = spec_insert(
            o.reliable_received_packets@,
            o.reliable_received_packets.newest(),
            seq,
            (),
            32,
        );
        &&& self.reliable_received_packets.newest() == ins.0
        &&& self.reliable_received_packets@ == ins.1
        &&& self.unordered_recv_queue@ == o.unordered_recv_queue@ + messages
        &&& self.reliable_ordered_received_packets == o.reliable_ordered_received_packets
        &&& self.ordered_read_packet_head == o.ordered_read_packet_head
        &&& self.ordered_recv_queue == o.ordered_recv_queue
    }

    /// `self` is `o` with the time of the last received packet set to `now` and the duplicate
    /// flag set to `dup`, and nothing else changed.
    pub open spec fn only_seen(&self, o: &Self, now: u64, dup: bool) -> bool {
        &&& self.same_send_side(o)
        &&& self.same_pending(o)
        &&& self.same_recv_side(o)
        &&& self.received_packet_duplicate == dup
        &&& self.received_since_send
        &&& self.last_seen == now
    }

    /// What taking in `packet` at `now` did, turning `o` into `self` with result `r`; see
    /// [`Self::receive_packet`].
    pub open spec fn received(
        &self,
        o: &Self,
        packet: Packet<R>,
        now: u64,
        r: Option<Result<(), Error>>,
    ) -> bool {
        let ack = packet.ack;
        let seq = ack.sequence_id;
        match packet.ty {
            PacketData::UnreliableFragment { .. }
            | PacketData::ReliableOrderedFragment { .. } => r is None && *self == *o,
            PacketData::Heartbeat => {
                &&& r == Some(Ok::<(), Error>(()))
                &&& self.acknowledged(o, ack)
                &&& self.same_send_side(o)
                &&& self.same_recv_side(o)
                &&& self.received_packet_duplicate == o.received_packet_duplicate
                &&& self.received_since_send
                &&& self.last_seen == now
            },
            PacketData::Unreliable { messages } => {
                &&& r == Some(Ok::<(), Error>(()))
                &&& self.acknowledged(o, ack)
                &&& self.same_send_side(o)
                &&& self.unordered_recv_queue@ == o.unordered_recv_queue@ + messages@
                &&& self.reliable_received_packets == o.reliable_received_packets
                &&& self.reliable_ordered_received_packets == o.reliable_ordered_received_packets
                &&& self.ordered_read_packet_head == o.ordered_read_packet_head
                &&& self.ordered_recv_queue == o.ordered_recv_queue
                &&& self.received_packet_duplicate == o.received_packet_duplicate
                &&& self.received_since_send
                &&& self.last_seen == now
            },
            PacketData::ReliableOrdered { messages } => {
                let newest = o.reliable_ordered_received_packets.newest();
                if o.reliable_ordered_received_packets@.contains_key(seq) {
                    r == Some(Ok::<(), Error>(())) && self.only_seen(o, now, true)
                } else if spec_too_old(newest, seq) {
                    &&& r == Some(Err::<(), Error>(Error::PacketTooOld { sequence_id: seq, newest_id: newest }))
                    &&& self.only_seen(o, now, true)
                } else {
                    &&& r == Some(Ok::<(), Error>(()))
                    &&& self.acknowledged(o, ack)
                    &&& self.same_send_side(o)
                    &&& self.ordered_accepted(o, seq, messages)
                    &&& self.received_packet_duplicate == o.received_packet_duplicate
                    &&& self.received_since_send
                    &&& self.last_seen == now
                }
            },
            PacketData::ReliableUnordered { messages } => {
                let newest = o.reliable_received_packets.newest();
                if o.reliable_received_packets@.contains_key(seq) {
                    r == Some(Ok::<(), Error>(())) && self.only_seen(o, now, true)
                } else if spec_too_old(newest, seq) {
                    &&& r == Some(Err::<(), Error>(Error::PacketTooOld { sequence_id: seq, newest_id: newest }))
                    &&& self.only_seen(o, now, true)
                } else {
                    &&& r == Some(Ok::<(), Error>(()))
                    &&& self.acknowledged(o, ack)
                    &&& self.same_send_side(o)
                    &&& self.unordered_accepted(o, seq, messages@)
                    &&& self.received_packet_duplicate == o.received_packet_duplicate
                    &&& self.received_since_send
                    &&& self.last_seen == now
                }
            },
        }
    }

    /// Take in a received packet at `now_ms`.
    ///
    /// - A heartbeat only carries acknowledgements: the pending packets it acknowledges are
    ///   dropped.
    /// - An unreliable packet's messages are appended to the unordered messages.
    /// - A reliable packet that was received before only sets the duplicate flag, so that the
    ///   next send acknowledges it again; one that is too old is refused with
    ///   [`Error::PacketTooOld`] and sets the flag too.
    /// - A new reliable unordered packet's messages are appended to the unordered messages.
    /// - A new reliable ordered packet is stored, and the messages of the ordered packets from
    ///   the read head on are handed out, in order, up to the first missing packet.
    ///
    /// Accepted packets acknowledge the pending packets their acknowledgement names.
    /// Fragments are not handled: the result is `None` and nothing changes.
    pub fn receive_packet(&mut self, packet: Packet<R>, now_ms: u64) -> (r: Option<
        Result<(), Error>,
    >)
        requires
            old(self).wf(),
        ensures
            final(self).wf(),
            final(self).received(old(self), packet, now_ms, r),
    {
        let Packet { ack, ty } = packet;
        match ty {
            PacketData::UnreliableFragment { .. } | PacketData::ReliableOrderedFragment { .. } => {
                return None;
            },
            PacketData::Heartbeat => {
                self.last_seen = now_ms;
                self.received_since_send = true;
                self.acknowledge(&ack);
            },
            PacketData::Unreliable { messages } => {
                self.last_seen = now_ms;
                self.received_since_send = true;
                extend_queue(&mut self.unordered_recv_queue, messages);
                self.acknowledge(&ack);
            },
            PacketData::ReliableOrdered { messages } => {
                self.last_seen = now_ms;
                self.received_since_send = true;
                let seq = ack.sequence_id;
                if self.reliable_ordered_received_packets.get(seq).is_some() {
                    self.received_packet_duplicate = true;
                    return Some(Ok(()));
                }
                let newest = self.reliable_ordered_received_packets.get_newest_index();
                if wrapping_gt(newest.wrapping_sub(31), seq, 64) {
                    self.received_packet_duplicate = true;
                    return Some(Err(Error::PacketTooOld { sequence_id: seq, newest_id: newest }));
                }
                self.acknowledge(&ack);
                self.reliable_ordered_received_packets.insert(seq, messages);
                self.deliver_ordered();
            },
            PacketData::ReliableUnordered { messages } => {
                self.last_seen = now_ms;
                self.received_since_send = true;
                let seq = ack.sequence_id;
                if self.reliable_received_packets.get(seq).is_some() {
                    self.received_packet_duplicate = true;
                    return Some(Ok(()));
                }
                let newest = self.reliable_received_packets.get_newest_index();
                if wrapping_gt(newest.wrapping_sub(31), seq, 64) {
                    self.received_packet_duplicate = true;
                    return Some(Err(Error::PacketTooOld { sequence_id: seq, newest_id: newest }));
                }
                self.acknowledge(&ack);
                self.reliable_received_packets.insert(seq, ());
                extend_queue(&mut self.unordered_recv_queue, messages);
            },
        }
        Some(Ok(()))
    }
}

impl<S, R: ByteRepr> InnerUdpCommunicator<S, R> {
    /// Take in the frame `frame` received at `now_ms`: check its CRC, read the packet it holds
    /// and take the packet in as [`Self::receive_packet`] does. A frame that fails the check or
    /// does not hold a packet changes nothing and gives the error. `None` where reading the
    /// packet would run past the end of the frame, or the packet is a fragment; then nothing
    /// changes either.
    pub fn read_packet(&mut self, frame: &[u8], now_ms: u64) -> (r: Option<Result<(), Error>>)
        requires
            old(self).wf(),
        ensures
            final(self).wf(),
            match spec_read_frame::<R>(old(self).protocol_version, frame@) {
                None => r is None && *final(self) == *old(self),
                Some(Err(e)) => r == Some(Err::<(), Error>(e)) && *final(self) == *old(self),
                Some(Ok(v)) => exists|p: Packet<R>|
                    p.deep_view() == v && #[trigger] final(self).received(old(self), p, now_ms, r),
            },
    {
        match read_frame::<R>(frame, self.protocol_version) {
            None => None,
            Some(Err(e)) => Some(Err(e)),
            Some(Ok(packet)) => {
                let ghost p = packet;
                let r = self.receive_packet(packet, now_ms);
                assert(self.received(old(self), p, now_ms, r));
                r
            },
        }
    }
}

impl<S: ByteRepr, R> InnerUdpCommunicator<S, R> {
    /// Whether [`Self::queues_fit`] holds, as sending needs.
    pub fn check_queues_fit(&self) -> (r: bool)
        requires
            self.wf(),
        ensures
            r == self.queues_fit(),
    {
        let a = free_slots(&self.reliable_send_packets);
        let b = free_slots(&self.reliable_ordered_send_packets);
        packs_fit_check(&self.reliable_send_queue, a) && packs_fit_check(
            &self.reliable_ordered_send_queue,
            b,
        ) && packs_fit_check(&self.unreliable_send_queue, self.unreliable_send_queue.len())
    }

    /// Every queued message that putting the messages into packets now reaches fits into a
    /// packet of its own: all unreliable ones, and the reliable ones that the free room of
    /// their pending packets takes.
    pub open spec fn queues_fit(&self) -> bool {
        &&& packs_fit(
            self.reliable_send_queue@,
            free_run(self.reliable_send_packets@, wsub(self.reliable_send_packets.newest(), 31), 32),
        )
        &&& packs_fit(
            self.reliable_ordered_send_queue@,
            free_run(
                self.reliable_ordered_send_packets@,
                wsub(self.reliable_ordered_send_packets.newest(), 31),
                32,
            ),
        )
        &&& packs_fit(self.unreliable_send_queue@, self.unreliable_send_queue@.len())
    }

    /// `self` is `o` with a heartbeat packet appended to the unreliable packets, carrying the
    /// next unreliable id and the acknowledgements for what `o` received. The duplicate flag is
    /// left out.
    pub open spec fn heartbeat_written(&self, o: &Self) -> bool {
        let ps = self.unreliable_send_packets@;
        &&& self.unreliable_send_packet_id == wadd(o.unreliable_send_packet_id, 1)
        &&& ps.len() == o.unreliable_send_packets@.len() + 1
        &&& ps.drop_last() == o.unreliable_send_packets@
        &&& ps.last().ty is Heartbeat
        &&& is_ack_of(
            ps.last().ack,
            o.unreliable_send_packet_id,
            o.reliable_received_packets,
            o.reliable_ordered_received_packets,
        )
        &&& self.same_pending(o)
        &&& self.same_recv_side(o)
        &&& self.reliable_send_queue == o.reliable_send_queue
        &&& self.reliable_ordered_send_queue == o.reliable_ordered_send_queue
        &&& self.unreliable_send_queue == o.unreliable_send_queue
        &&& self.last_send == o.last_send
        &&& self.last_seen == o.last_seen
        &&& self.resend == o.resend
        &&& self.protocol_version == o.protocol_version
    }

    /// `self` is `o` with all queued messages put into packets: the reliable ones into new
    /// pending packets as far as the buffers allow, the unreliable ones all into new unreliable
    /// packets. See [`reliable_flushed`] and [`unreliable_flushed`].
    pub open spec fn flushed(&self, o: &Self) -> bool {
        let rr = o.reliable_received_packets;
        let orr = o.reliable_ordered_received_packets;
        &&& reliable_flushed(
            self.reliable_send_packets,
            o.reliable_send_packets,
            o.reliable_send_queue@,
            self.reliable_send_queue@,
            false,
            rr,
            orr,
        )
        &&& reliable_flushed(
            self.reliable_ordered_send_packets,
            o.reliable_ordered_send_packets,
            o.reliable_ordered_send_queue@,
            self.reliable_ordered_send_queue@,
            true,
            rr,
            orr,
        )
        &&& unreliable_flushed(
            self.unreliable_send_packets@,
            o.unreliable_send_packets@,
            o.unreliable_send_queue@,
            self.unreliable_send_queue@,
            self.unreliable_send_packet_id,
            o.unreliable_send_packet_id,
            rr,
            orr,
        )
        &&& self.same_recv_side(o)
        &&& self.received_packet_duplicate == o.received_packet_duplicate
        &&& self.received_since_send == o.received_since_send
        &&& self.last_send == o.last_send
        &&& self.last_seen == o.last_seen
        &&& self.resend == o.resend
        &&& self.protocol_version == o.protocol_version
    }

    /// `self` is `o` after sending at `now`: the frames `frames` are those of the pending
    /// packets that are due, oldest first, reliable unordered ones before ordered ones, then
    /// those of all unreliable packets; see [`spec_resend_all`].
    pub open spec fn resent(&self, o: &Self, frames: Seq<Seq<u8>>, now: u64) -> bool {
        let v = o.protocol_version;
        let r1 = spec_resend_all(
            o.resend,
            v,
            o.reliable_send_packets@,
            wsub(o.reliable_send_packets.newest(), 31),
            32,
            now,
        );
        let r2 = spec_resend_all(
            o.resend,
            v,
            o.reliable_ordered_send_packets@,
            wsub(o.reliable_ordered_send_packets.newest(), 31),
            32,
            now,
        );
        &&& self.reliable_send_packets.newest() == o.reliable_send_packets.newest()
        &&& self.reliable_send_packets@ == r1.1
        &&& self.reliable_ordered_send_packets.newest() == o.reliable_ordered_send_packets.newest()
        &&& self.reliable_ordered_send_packets@ == r2.1
        &&& frames == r1.0 + r2.0 + frames_of(v, o.unreliable_send_packets@)
        &&& self.unreliable_send_packets@.len() == 0
        &&& self.unreliable_send_packet_id == o.unreliable_send_packet_id
        &&& self.reliable_send_queue == o.reliable_send_queue
        &&& self.reliable_ordered_send_queue == o.reliable_ordered_send_queue
        &&& self.unreliable_send_queue == o.unreliable_send_queue
        &&& self.same_recv_side(o)
        &&& self.received_packet_duplicate == o.received_packet_duplicate
        &&& self.received_since_send == o.received_since_send
        &&& self.last_send == o.last_send
        &&& self.last_seen == o.last_seen
        &&& self.resend == o.resend
        &&& self.protocol_version == o.protocol_version
    }

    /// Queue a heartbeat: a packet with no messages that carries the acknowledgements of what
    /// was received. Like the `write` methods, this does not send anything yet.
    pub fn write_heartbeat(&mut self)
        requires
            old(self).wf(),
        ensures
            final(self).wf(),
            final(self).heartbeat_written(old(self)),
            final(self).received_packet_duplicate == old(self).received_packet_duplicate,
            final(self).received_since_send == old(self).received_since_send,
    {
        let sequence_id = self.unreliable_send_packet_id;
        self.unreliable_send_packet_id = self.unreliable_send_packet_id.wrapping_add(1);
        let packet = Packet::heartbeat(
            PacketAck::new(
                sequence_id,
                &self.reliable_received_packets,
                &self.reliable_ordered_received_packets,
            ),
        );
        self.unreliable_send_packets.push_back(packet);
        assert(self.unreliable_send_packets@.drop_last() =~= old(self).unreliable_send_packets@);
    }

    /// Put the queued messages into packets; see [`Self::flushed`].
    pub fn flush_messages(&mut self)
        requires
            old(self).wf(),
            old(self).queues_fit(),
        ensures
            final(self).wf(),
            final(self).flushed(old(self)),
    {
        flush_reliable(
            &mut self.reliable_send_packets,
            &self.reliable_received_packets,
            &self.reliable_ordered_received_packets,
            &mut self.reliable_send_queue,
            false,
            &self.resend,
        );
        flush_reliable(
            &mut self.reliable_ordered_send_packets,
            &self.reliable_received_packets,
            &self.reliable_ordered_received_packets,
            &mut self.reliable_ordered_send_queue,
            true,
            &self.resend,
        );
        flush_unreliable(
            &mut self.unreliable_send_queue,
            &mut self.unreliable_send_packets,
            &mut self.unreliable_send_packet_id,
            &self.reliable_received_packets,
            &self.reliable_ordered_received_packets,
        );
    }

    /// Whether a send owes the other side a heartbeat, judged before the queued messages are
    /// put into packets: a packet was received since the last send, and no message is queued
    /// and no unreliable packet waits.
    pub open spec fn heartbeat_owed(&self) -> bool {
        &&& self.received_since_send
        &&& self.reliable_send_queue@.len() == 0
        &&& self.reliable_ordered_send_queue@.len() == 0
        &&& self.unreliable_send_queue@.len() == 0
        &&& self.unreliable_send_packets@.len() == 0
    }

    /// Whether none of the pending reliable packets is due to be resent at `now`.
    pub open spec fn nothing_due(&self, now: u64) -> bool {
        &&& spec_resend_all(
            self.resend,
            self.protocol_version,
            self.reliable_send_packets@,
            wsub(self.reliable_send_packets.newest(), 31),
            32,
            now,
        ).0.len() == 0
        &&& spec_resend_all(
            self.resend,
            self.protocol_version,
            self.reliable_ordered_send_packets@,
            wsub(self.reliable_ordered_send_packets.newest(), 31),
            32,
            now,
        ).0.len() == 0
    }

    /// The frames to send at `now_ms`: those of the pending packets that are due, which are
    /// recorded as sent (and dropped after their last send), then those of all unreliable
    /// packets, which are dropped. See [`Self::resent`].
    pub fn send_packets(&mut self, now_ms: u64) -> (frames: Vec<Vec<u8>>)
        requires
            old(self).wf(),
        ensures
            final(self).wf(),
            final(self).resent(old(self), frame_views(frames@), now_ms),
    {
        let mut frames: Vec<Vec<u8>> = Vec::new();
        assert(frame_views(frames@) =~= Seq::<Seq<u8>>::empty());
        resend_pending(
            &mut self.reliable_send_packets,
            &self.resend,
            self.protocol_version,
            now_ms,
            &mut frames,
        );
        resend_pending(
            &mut self.reliable_ordered_send_packets,
            &self.resend,
            self.protocol_version,
            now_ms,
            &mut frames,
        );
        send_all(&mut self.unreliable_send_packets, self.protocol_version, &mut frames);
        frames
    }

    /// What sending at `now` did, turning `o` into `self` and giving `frames`; see
    /// [`Self::prepare_send`]: the receive flags are cleared, the queued messages are put into
    /// packets, a heartbeat is added where one is owed and nothing else goes out, and the due
    /// and unreliable packets are sent.
    pub open spec fn prepared(&self, o: &Self, frames: Seq<Seq<u8>>, now: u64) -> bool {
        exists|a: Self, b: Self, h: Self|
            {
                &&& a == (InnerUdpCommunicator {
                    received_packet_duplicate: false,
                    received_since_send: false,
                    ..*o
                })
                &&& #[trigger] b.flushed(&a)
                &&& if o.heartbeat_owed() && b.nothing_due(now) {
                    &&& h.heartbeat_written(&b)
                    &&& !h.received_packet_duplicate
                    &&& !h.received_since_send
                } else {
                    h == b
                }
                &&& #[trigger] self.resent(&h, frames, now)
            }
    }

    /// Send at `now_ms`: put the queued messages into packets, and return the frames of the
    /// reliable packets that are due and of all unreliable packets. If a packet was received
    /// since the last send and nothing else goes out (no message was
    /// queued, no unreliable packet waited, no reliable packet is due), a heartbeat carrying
    /// the acknowledgements is sent. Both receive flags are cleared. Every queued message that
    /// packing reaches has to fit into one packet; see [`Self::queues_fit`].
    pub fn prepare_send(&mut self, now_ms: u64) -> (frames: Vec<Vec<u8>>)
        requires
            old(self).wf(),
            old(self).queues_fit(),
        ensures
            final(self).wf(),
            final(self).prepared(old(self), frame_views(frames@), now_ms),
    {
        let owed = self.received_since_send && self.reliable_send_queue.len() == 0
            && self.reliable_ordered_send_queue.len() == 0 && self.unreliable_send_queue.len()
            == 0 && self.unreliable_send_packets.len() == 0;
        self.received_packet_duplicate = false;
        self.received_since_send = false;
        let ghost a = *self;
        self.flush_messages();
        let ghost b = *self;
        let mut frames: Vec<Vec<u8>> = Vec::new();
        assert(frame_views(frames@) =~= Seq::<Seq<u8>>::empty());
        resend_pending(
            &mut self.reliable_send_packets,
            &self.resend,
            self.protocol_version,
            now_ms,
            &mut frames,
        );
        resend_pending(
            &mut self.reliable_ordered_send_packets,
            &self.resend,
            self.protocol_version,
            now_ms,
            &mut frames,
        );
        let ghost c = *self;
        let ghost reliable_frames = frame_views(frames@);
        assert(reliable_frames.len() == frames@.len());
        let ghost mut h = b;
        if owed && frames.len() == 0 {
            self.write_heartbeat();
            proof {
                h = InnerUdpCommunicator {
                    unreliable_send_packets: self.unreliable_send_packets,
                    unreliable_send_packet_id: self.unreliable_send_packet_id,
                    ..b
                };
                assert(h.heartbeat_written(&b));
            }
        }
        let ghost d = *self;
        assert(d.unreliable_send_packets == h.unreliable_send_packets);
        send_all(&mut self.unreliable_send_packets, self.protocol_version, &mut frames);
        assert(self.resent(&h, frame_views(frames@), now_ms));
        frames
    }
}

impl<S, R> MightHaveWork for InnerUdpCommunicator<S, R> {
    open spec fn ready(&self) -> bool {
        self.wf()
    }

    /// Whether any message is queued to be sent or any packet waits to be sent or
    /// acknowledged.
    fn has_work(&self) -> (r: bool)
        ensures
            r == !(self.reliable_send_packets@.is_empty()
                && self.reliable_ordered_send_packets@.is_empty()
                && self.unreliable_send_packets@.len() == 0
                && self.reliable_send_queue@.len() == 0
                && self.reliable_ordered_send_queue@.len() == 0
                && self.unreliable_send_queue@.len() == 0),
    {
        InnerUdpCommunicator::has_work(self)
    }
}

impl<S, R> MessageSource<R> for InnerUdpCommunicator<S, R> {
    /// The next unreliable or reliable unordered message received, as [`Self::read`] gives it.
    fn next(&mut self) -> (r: Option<R>)
        ensures
            *final(self) == (InnerUdpCommunicator {
                unordered_recv_queue: final(self).unordered_recv_queue,
                ..*old(self)
            }),
            old(self).unordered_recv_queue@.len() == 0 ==> r is None
                && final(self).unordered_recv_queue@ == old(self).unordered_recv_queue@,
            old(self).unordered_recv_queue@.len() > 0 ==> r == Some(
                old(self).unordered_recv_queue@[0],
            ) && final(self).unordered_recv_queue@ == old(self).unordered_recv_queue@.drop_first(),
    {
        self.read()
    }
}

/// A run of `i` present indices makes the capped run at least `i` long.
proof fn lemma_run_len_ge<X>(m: Map<u16, X>, head: u16, i: nat, k: nat)
    requires
        i <= k,
        all_present(m, head, i),
    ensures
        run_len(m, head, k) >= i,
    decreases k,
{
    if k > i && !all_present(m, head, k) {
        lemma_run_len_ge(m, head, i, (k - 1) as nat);
    }
}

/// The messages of the packet at the head come first.
proof fn lemma_run_msgs_prefix<X>(m: Map<u16, Seq<X>>, head: u16, k: nat)
    requires
        k >= 1,
    ensures
        run_msgs(m, head, k).len() >= m[head].len(),
        run_msgs(m, head, k).subrange(0, m[head].len() as int) == m[head],
    decreases k,
{
    if k == 1 {
        assert(run_msgs(m, head, 0) =~= Seq::<X>::empty());
        assert(wadd(head, 0) == head);
        assert(run_msgs(m, head, 1) =~= m[head]);
        assert(run_msgs(m, head, 1).subrange(0, m[head].len() as int) =~= m[head]);
    } else {
        lemma_run_msgs_prefix(m, head, (k - 1) as nat);
        let a = run_msgs(m, head, (k - 1) as nat);
        assert(run_msgs(m, head, k).subrange(0, m[head].len() as int) =~= a.subrange(
            0,
            m[head].len() as int,
        ));
    }
}

/// Ordered messages are never handed out past a missing packet: while the packet at the read
/// head has not arrived, taking in any other packet hands out no ordered message and keeps the
/// read head where it is.
pub proof fn law_ordered_waits_for_head<S, R>(
    before: InnerUdpCommunicator<S, R>,
    after: InnerUdpCommunicator<S, R>,
    packet: Packet<R>,
    now: u64,
    r: Option<Result<(), Error>>,
)
    requires
        before.wf(),
        after.received(&before, packet, now, r),
        !before.reliable_ordered_received_packets@.contains_key(before.ordered_read_packet_head),
        packet.ack.sequence_id != before.ordered_read_packet_head,
    ensures
        after.ordered_recv_queue@ == before.ordered_recv_queue@,
        after.ordered_read_packet_head == before.ordered_read_packet_head,
{
    let head = before.ordered_read_packet_head;
    let seq = packet.ack.sequence_id;
    match packet.ty {
        PacketData::ReliableOrdered { messages } => {
            let ins = spec_insert(
                before.reliable_ordered_received_packets@,
                before.reliable_ordered_received_packets.newest(),
                seq,
                messages,
                32,
            );
            let m = vec_views(ins.1);
            assert(!ins.1.contains_key(head));
            assert(!m.contains_key(wadd(head, 0)));
            lemma_run_len(m, head, 0, 32);
            assert(run_msgs(m, head, 0) =~= Seq::<R>::empty());
            assert(before.ordered_recv_queue@ + Seq::<R>::empty() =~= before.ordered_recv_queue@);
        },
        _ => {},
    }
}

/// A reliable packet received before is not handed out again: taking in its repetition
/// changes nothing that was received and only asks for the acknowledgements to be sent again.
pub proof fn law_duplicate_not_redelivered<S, R>(
    before: InnerUdpCommunicator<S, R>,
    after: InnerUdpCommunicator<S, R>,
    packet: Packet<R>,
    now: u64,
    r: Option<Result<(), Error>>,
)
    requires
        after.received(&before, packet, now, r),
        match packet.ty {
            PacketData::ReliableOrdered { .. } => before.reliable_ordered_received_packets@.contains_key(
                packet.ack.sequence_id,
            ),
            PacketData::ReliableUnordered { .. } => before.reliable_received_packets@.contains_key(
                packet.ack.sequence_id,
            ),
            _ => false,
        },
    ensures
        after.same_recv_side(&before),
        after.same_pending(&before),
        after.received_packet_duplicate,
        r == Some(Ok::<(), Error>(())),
{
}

/// An ordered packet that arrives when it is next in line has its messages handed out at once,
/// before those of any later packet, and moves the read head on.
pub proof fn law_in_order_delivered<S, R>(
    before: InnerUdpCommunicator<S, R>,
    after: InnerUdpCommunicator<S, R>,
    packet: Packet<R>,
    now: u64,
    r: Option<Result<(), Error>>,
)
    requires
        before.wf(),
        after.received(&before, packet, now, r),
        packet.ty is ReliableOrdered,
        packet.ack.sequence_id == before.ordered_read_packet_head,
        !before.reliable_ordered_received_packets@.contains_key(packet.ack.sequence_id),
        !spec_too_old(before.reliable_ordered_received_packets.newest(), packet.ack.sequence_id),
    ensures
        r == Some(Ok::<(), Error>(())),
        after.ordered_read_packet_head != before.ordered_read_packet_head,
        match packet.ty {
            PacketData::ReliableOrdered { messages } => {
                let n = before.ordered_recv_queue@.len() + messages@.len();
                &&& after.ordered_recv_queue@.len() >= n
                &&& after.ordered_recv_queue@.subrange(0, n as int) == before.ordered_recv_queue@
                    + messages@
            },
            _ => true,
        },
{
    let head = before.ordered_read_packet_head;
    match packet.ty {
        PacketData::ReliableOrdered { messages } => {
            let ins = spec_insert(
                before.reliable_ordered_received_packets@,
                before.reliable_ordered_received_packets.newest(),
                head,
                messages,
                32,
            );
            crate::ring_buffer::law_insert_then_get(
                before.reliable_ordered_received_packets@,
                before.reliable_ordered_received_packets.newest(),
                head,
                messages,
                32,
            );
            let m = vec_views(ins.1);
            assert(m.contains_key(head));
            assert(m[head] == messages@);
            assert(all_present(m, head, 1));
            lemma_run_len_ge(m, head, 1, 32);
            let k = run_len(m, head, 32);
            assert(k <= 32) by {
                if k > 32 {
                    lemma_run_len_bound(m, head, 32);
                }
            }
            lemma_run_msgs_prefix(m, head, k);
            let q0 = before.ordered_recv_queue@;
            let out = run_msgs(m, head, k);
            assert(after.ordered_recv_queue@ == q0 + out);
            assert((q0 + out).subrange(0, (q0.len() + messages@.len()) as int) =~= q0 + out.subrange(
                0,
                messages@.len() as int,
            ));
        },
        _ => {},
    }
}

/// The capped run is never longer than its cap.
proof fn lemma_run_len_bound<X>(m: Map<u16, X>, head: u16, k: nat)
    ensures
        run_len(m, head, k) <= k,
    decreases k,
{
    if k > 0 && !all_present(m, head, k) {
        lemma_run_len_bound(m, head, (k - 1) as nat);
    }
}

/// What a communicator accepts is acknowledged: once a reliable packet was taken in without
/// error, the next heartbeat acknowledges it, and the sender that takes in that
/// acknowledgement drops its pending copy of the packet.
pub proof fn law_accepted_then_acknowledged<S: ByteRepr, R, T, U>(
    rx0: InnerUdpCommunicator<S, R>,
    rx1: InnerUdpCommunicator<S, R>,
    packet: Packet<R>,
    now: u64,
    r: Option<Result<(), Error>>,
    rx2: InnerUdpCommunicator<S, R>,
    tx0: InnerUdpCommunicator<T, U>,
    tx1: InnerUdpCommunicator<T, U>,
)
    requires
        rx0.wf(),
        rx1.received(&rx0, packet, now, r),
        r == Some(Ok::<(), Error>(())),
        packet.ty is ReliableUnordered || packet.ty is ReliableOrdered,
        rx2.heartbeat_written(&rx1),
        tx1.acknowledged(&tx0, rx2.unreliable_send_packets@.last().ack),
    ensures
        packet.ty is ReliableUnordered ==> !tx1.reliable_send_packets@.contains_key(
            packet.ack.sequence_id,
        ),
        packet.ty is ReliableOrdered ==> !tx1.reliable_ordered_send_packets@.contains_key(
            packet.ack.sequence_id,
        ),
{
    let seq = packet.ack.sequence_id;
    let ack = rx2.unreliable_send_packets@.last().ack;
    match packet.ty {
        PacketData::ReliableUnordered { messages } => {
            if !rx0.reliable_received_packets@.contains_key(seq) {
                crate::ring_buffer::law_insert_then_get(
                    rx0.reliable_received_packets@,
                    rx0.reliable_received_packets.newest(),
                    seq,
                    (),
                    32,
                );
            }
            let ring = rx1.reliable_received_packets;
            assert(ring@.contains_key(seq));
            ring.lemma_view_in_window(seq);
            let i = dist(ring.newest(), seq);
            assert(wsub(ring.newest(), i) == seq);
            assert(crate::packet::bit_set(ack.reliable_ack_bits, i));
            assert(acked_indices(ack.reliable_newest_received, ack.reliable_ack_bits).contains(seq));
        },
        PacketData::ReliableOrdered { messages } => {
            if !rx0.reliable_ordered_received_packets@.contains_key(seq) {
                crate::ring_buffer::law_insert_then_get(
                    rx0.reliable_ordered_received_packets@,
                    rx0.reliable_ordered_received_packets.newest(),
                    seq,
                    messages,
                    32,
                );
                let ins = spec_insert(
                    rx0.reliable_ordered_received_packets@,
                    rx0.reliable_ordered_received_packets.newest(),
                    seq,
                    messages,
                    32,
                );
                assert(vec_views(ins.1).contains_key(seq));
                assert(vec_views(rx1.reliable_ordered_received_packets@).contains_key(seq));
            }
            let ring = rx1.reliable_ordered_received_packets;
            assert(ring@.contains_key(seq));
            ring.lemma_view_in_window(seq);
            let i = dist(ring.newest(), seq);
            assert(wsub(ring.newest(), i) == seq);
            assert(crate::packet::bit_set(ack.ordered_ack_bits, i));
            assert(acked_indices(ack.ordered_newest_received, ack.ordered_ack_bits).contains(seq));
        },
        _ => {},
    }
}

/// A buffer counts no item exactly when it holds none.
pub(crate) proof fn lemma_empty_count<T>(ring: &RingBuffer<T, 32>)
    requires
        ring.wf(),
    ensures
        (crate::ring_buffer::count_present(ring@, ring.newest(), 32) == 0) == ring@.is_empty(),
{
    lemma_count_zero(ring@, ring.newest(), 32);
    if !ring@.is_empty() {
        let i = ring@.dom().choose();
        assert(ring@.dom().contains(i));
        ring.lemma_view_in_window(i);
        assert(ring@.contains_key(wsub(ring.newest(), dist(ring.newest(), i))));
    }
}

/// No index among the `k` newest holds an item exactly when the count over them is zero.
proof fn lemma_count_zero<T>(m: Map<u16, T>, newest: u16, k: nat)
    ensures
        (crate::ring_buffer::count_present(m, newest, k) == 0) == (forall|j: int|
            0 <= j < k ==> !#[trigger] m.contains_key(wsub(newest, j))),
    decreases k,
{
    if k > 0 {
        lemma_count_zero(m, newest, (k - 1) as nat);
    }
}

/// Every packet taken in that carries an acknowledgement meant for this side drops the pending
/// packets the acknowledgement names and keeps all others: a heartbeat, an unreliable packet,
/// and a reliable packet (ordered or not) that was accepted as new.
pub proof fn law_receive_acknowledges<S, R>(
    before: InnerUdpCommunicator<S, R>,
    after: InnerUdpCommunicator<S, R>,
    packet: Packet<R>,
    now: u64,
    r: Option<Result<(), Error>>,
)
    requires
        before.wf(),
        after.received(&before, packet, now, r),
        ({
            let seq = packet.ack.sequence_id;
            ||| packet.ty is Heartbeat
            ||| packet.ty is Unreliable
            ||| packet.ty is ReliableOrdered && r == Some(Ok::<(), Error>(()))
                && !before.reliable_ordered_received_packets@.contains_key(seq)
            ||| packet.ty is ReliableUnordered && r == Some(Ok::<(), Error>(()))
                && !before.reliable_received_packets@.contains_key(seq)
        }),
    ensures
        after.reliable_send_packets@ == before.reliable_send_packets@.remove_keys(
            acked_indices(packet.ack.reliable_newest_received, packet.ack.reliable_ack_bits),
        ),
        after.reliable_ordered_send_packets@ == before.reliable_ordered_send_packets@.remove_keys(
            acked_indices(packet.ack.ordered_newest_received, packet.ack.ordered_ack_bits),
        ),
{
}

/// A reliable unordered packet's messages are handed out at most once. One received before,
/// or one lying so far behind the newest received that it may have been received and
/// forgotten, hands out nothing, leaves what was received unchanged, and marks a duplicate;
/// such an old one is refused with [`Error::PacketTooOld`]. Any other is accepted: its messages
/// are handed out and its id is recorded as received.
#[verifier::rlimit(30)]
pub proof fn law_unordered_at_most_once<S, R>(
    before: InnerUdpCommunicator<S, R>,
    after: InnerUdpCommunicator<S, R>,
    packet: Packet<R>,
    now: u64,
    r: Option<Result<(), Error>>,
)
    requires
        before.wf(),
        after.received(&before, packet, now, r),
        packet.ty is ReliableUnordered,
    ensures
        ({
            let seq = packet.ack.sequence_id;
            let newest = before.reliable_received_packets.newest();
            let seen = before.reliable_received_packets@.contains_key(seq);
            &&& (seen || spec_too_old(newest, seq)) ==> {
                &&& after.unordered_recv_queue == before.unordered_recv_queue
                &&& after.reliable_received_packets == before.reliable_received_packets
                &&& after.received_packet_duplicate
            }
            &&& (!seen && spec_too_old(newest, seq)) ==> r == Some(
                Err::<(), Error>(Error::PacketTooOld { sequence_id: seq, newest_id: newest }),
            )
            &&& (!seen && !spec_too_old(newest, seq)) ==> {
                &&& r == Some(Ok::<(), Error>(()))
                &&& after.unordered_recv_queue@ == before.unordered_recv_queue@
                    + packet.ty->ReliableUnordered_messages@
                &&& after.reliable_received_packets@.contains_key(seq)
            }
        }),
{
    let seq = packet.ack.sequence_id;
    let newest = before.reliable_received_packets.newest();
    if !before.reliable_received_packets@.contains_key(seq) && !spec_too_old(newest, seq) {
        crate::ring_buffer::law_insert_then_get(
            before.reliable_received_packets@,
            newest,
            seq,
            (),
            32,
        );
    }
}

/// Going through the pending packets at a send touches only the `k` indices from `start` on:
/// the others stay as they are.
proof fn lemma_resend_all_untouched<S: ByteRepr>(
    cfg: FixedResend,
    version: u32,
    m: Map<u16, PendingPacket<S>>,
    start: u16,
    k: nat,
    now: u64,
    x: u16,
)
    requires
        k <= 32,
        forall|i: int| 0 <= i < k ==> wadd(start, i) != x,
    ensures
        spec_resend_all(cfg, version, m, start, k, now).1.contains_key(x) == m.contains_key(x),
        m.contains_key(x) ==> spec_resend_all(cfg, version, m, start, k, now).1[x] == m[x],
    decreases k,
{
    if k > 0 {
        lemma_resend_all_untouched(cfg, version, m, start, (k - 1) as nat, now, x);
        assert(wadd(start, k - 1) != x);
    }
}

/// No pending packet is sent more often than the resend strategy allows, and every packet that
/// is due is sent. Where every pending packet of `m` was sent at most `max_retries` times,
/// going through the `k` indices from `start` on at a send keeps only packets of `m` sent at
/// most `max_retries` times. A packet due at `now` among them is sent: if it has sends left it
/// stays, recorded as sent at `now` once more; if this was its last send it is dropped.
#[verifier::rlimit(30)]
pub proof fn law_resend_within_retries<S: ByteRepr>(
    cfg: FixedResend,
    version: u32,
    m: Map<u16, PendingPacket<S>>,
    start: u16,
    k: nat,
    now: u64,
)
    requires
        k <= 32,
        forall|x: u16| #[trigger] m.contains_key(x) ==> m[x].resend_context.times_sent
            <= cfg.max_retries,
    ensures
        forall|x: u16| #[trigger]
            spec_resend_all(cfg, version, m, start, k, now).1.contains_key(x) ==> m.contains_key(x)
                && spec_resend_all(cfg, version, m, start, k, now).1[x].resend_context.times_sent
                <= cfg.max_retries,
        forall|j: int|
            0 <= j < k && m.contains_key(#[trigger] wadd(start, j)) && (m[wadd(start, j)].resend_context.last_send_ms is None || (now >= m[wadd(start, j)].resend_context.last_send_ms->Some_0 && now - m[wadd(start, j)].resend_context.last_send_ms->Some_0 > cfg.resend_interval_ms)) ==> {
                let x = wadd(start, j);
                let res = spec_resend_all(cfg, version, m, start, k, now).1;
                &&& m[x].resend_context.times_sent < cfg.max_retries ==> res.contains_key(x)
                    && res[x].resend_context == (ResendContext {
                    last_send_ms: Some(now),
                    times_sent: (m[x].resend_context.times_sent + 1) as u32,
                })
                &&& m[x].resend_context.times_sent == cfg.max_retries < u32::MAX ==> !res.contains_key(
                    x,
                )
            },
    decreases k,
{
    if k > 0 {
        law_resend_within_retries(cfg, version, m, start, (k - 1) as nat, now);
        let idx = wadd(start, k - 1);
        assert forall|i: int| 0 <= i < k - 1 implies wadd(start, i) != idx by {
            crate::ring_buffer::lemma_dist_wadd(start, k - 1, i);
        }
        lemma_resend_all_untouched(cfg, version, m, start, (k - 1) as nat, now, idx);
        let res = spec_resend_all(cfg, version, m, start, k, now).1;
        let prev = spec_resend_all(cfg, version, m, start, (k - 1) as nat, now).1;
        assert forall|j: int|
            0 <= j < k && m.contains_key(#[trigger] wadd(start, j)) && (m[wadd(start, j)].resend_context.last_send_ms is None || (now >= m[wadd(start, j)].resend_context.last_send_ms->Some_0 && now - m[wadd(start, j)].resend_context.last_send_ms->Some_0 > cfg.resend_interval_ms)) implies {
                let x = wadd(start, j);
                &&& m[x].resend_context.times_sent < cfg.max_retries ==> res.contains_key(x)
                    && res[x].resend_context == (ResendContext {
                    last_send_ms: Some(now),
                    times_sent: (m[x].resend_context.times_sent + 1) as u32,
                })
                &&& m[x].resend_context.times_sent == cfg.max_retries < u32::MAX ==> !res.contains_key(
                    x,
                )
            } by {
            let x = wadd(start, j);
            if j < k - 1 {
                crate::ring_buffer::lemma_dist_wadd(start, k - 1, j);
                assert(x != idx);
                assert(res.contains_key(x) == prev.contains_key(x));
                if prev.contains_key(x) {
                    assert(res[x] == prev[x]);
                }
            } else {
                assert(x == idx);
                assert(prev.contains_key(idx) && prev[idx] == m[idx]);
            }
        }
    }
}

/// A reliable ordered packet received before, or one lying so far behind the newest received
/// that it may have been received and forgotten, hands out nothing and leaves what was
/// received and the read head unchanged, marking a duplicate; such an old one is refused with
/// [`Error::PacketTooOld`].
#[verifier::rlimit(30)]
pub proof fn law_ordered_old_refused<S, R>(
    before: InnerUdpCommunicator<S, R>,
    after: InnerUdpCommunicator<S, R>,
    packet: Packet<R>,
    now: u64,
    r: Option<Result<(), Error>>,
)
    requires
        before.wf(),
        after.received(&before, packet, now, r),
        packet.ty is ReliableOrdered,
    ensures
        ({
            let seq = packet.ack.sequence_id;
            let newest = before.reliable_ordered_received_packets.newest();
            let seen = before.reliable_ordered_received_packets@.contains_key(seq);
            &&& (seen || spec_too_old(newest, seq)) ==> {
                &&& after.ordered_recv_queue == before.ordered_recv_queue
                &&& after.reliable_ordered_received_packets
                    == before.reliable_ordered_received_packets
                &&& after.ordered_read_packet_head == before.ordered_read_packet_head
                &&& after.unordered_recv_queue == before.unordered_recv_queue
                &&& after.received_packet_duplicate
            }
            &&& seen ==> r == Some(Ok::<(), Error>(()))
            &&& (!seen && spec_too_old(newest, seq)) ==> r == Some(
                Err::<(), Error>(Error::PacketTooOld { sequence_id: seq, newest_id: newest }),
            )
            &&& (!seen && !spec_too_old(newest, seq)) ==> r == Some(Ok::<(), Error>(()))
                && after.reliable_ordered_received_packets@.contains_key(seq)
        }),
{
    let seq = packet.ack.sequence_id;
    let newest = before.reliable_ordered_received_packets.newest();
    if !before.reliable_ordered_received_packets@.contains_key(seq) && !spec_too_old(newest, seq) {
        let msgs = packet.ty->ReliableOrdered_messages;
        crate::ring_buffer::law_insert_then_get(
            before.reliable_ordered_received_packets@,
            newest,
            seq,
            msgs,
            32,
        );
        let ins = spec_insert(before.reliable_ordered_received_packets@, newest, seq, msgs, 32);
        assert(vec_views(ins.1).contains_key(seq));
        assert(vec_views(after.reliable_ordered_received_packets@).contains_key(seq));
    }
}

/// Sending when idle sends a heartbeat exactly when something was received since the last
/// send. Where nothing is queued, no unreliable packet waits and no pending packet is due, a
/// send after a packet was received sends one frame, that of a heartbeat carrying the
/// acknowledgements for everything received, and uses the next unreliable id; a send with
/// nothing received since the last one sends nothing. Either way the receive flag is cleared.
#[verifier::rlimit(30)]
pub proof fn law_idle_send_heartbeat<S: ByteRepr, R>(
    before: InnerUdpCommunicator<S, R>,
    after: InnerUdpCommunicator<S, R>,
    frames: Seq<Seq<u8>>,
    now: u64,
)
    requires
        before.wf(),
        after.prepared(&before, frames, now),
        before.reliable_send_queue@.len() == 0,
        before.reliable_ordered_send_queue@.len() == 0,
        before.unreliable_send_queue@.len() == 0,
        before.unreliable_send_packets@.len() == 0,
        before.nothing_due(now),
    ensures
        !after.received_since_send,
        before.received_since_send ==> {
            &&& after.unreliable_send_packet_id == wadd(before.unreliable_send_packet_id, 1)
            &&& exists|hb: Packet<S>|
                {
                    &&& hb.ty is Heartbeat
                    &&& is_ack_of(
                        hb.ack,
                        before.unreliable_send_packet_id,
                        before.reliable_received_packets,
                        before.reliable_ordered_received_packets,
                    )
                    &&& frames == push_frame(Seq::empty(), frame_of(before.protocol_version, hb))
                }
        },
        !before.received_since_send ==> frames.len() == 0 && after.unreliable_send_packet_id
            == before.unreliable_send_packet_id,
{
    let (a, b, h) = choose|a: InnerUdpCommunicator<S, R>, b: InnerUdpCommunicator<S, R>, h: InnerUdpCommunicator<S, R>|
        {
            &&& a == (InnerUdpCommunicator {
                received_packet_duplicate: false,
                received_since_send: false,
                ..before
            })
            &&& #[trigger] b.flushed(&a)
            &&& if before.heartbeat_owed() && b.nothing_due(now) {
                &&& h.heartbeat_written(&b)
                &&& !h.received_packet_duplicate
                &&& !h.received_since_send
            } else {
                h == b
            }
            &&& #[trigger] after.resent(&h, frames, now)
        };
    let e = Seq::<S>::empty();
    assert(packed(e, free_run(a.reliable_send_packets@, wsub(a.reliable_send_packets.newest(), 31), 32)) =~= Seq::<Seq<S>>::empty());
    assert(packed(e, free_run(a.reliable_ordered_send_packets@, wsub(a.reliable_ordered_send_packets.newest(), 31), 32)) =~= Seq::<Seq<S>>::empty());
    assert(packed(e, 0) =~= Seq::<Seq<S>>::empty());
    assert(a.reliable_send_queue@ =~= e);
    assert(a.reliable_ordered_send_queue@ =~= e);
    assert(a.unreliable_send_queue@ =~= e);
    assert(wadd(a.reliable_send_packets.newest(), 0) == a.reliable_send_packets.newest());
    assert(wadd(a.reliable_ordered_send_packets.newest(), 0) == a.reliable_ordered_send_packets.newest());
    assert(wadd(a.unreliable_send_packet_id, 0) == a.unreliable_send_packet_id);
    assert(b.reliable_send_packets@ =~= a.reliable_send_packets@);
    assert(b.reliable_ordered_send_packets@ =~= a.reliable_ordered_send_packets@);
    assert(b.unreliable_send_packets@ =~= Seq::<Packet<S>>::empty());
    assert(b.nothing_due(now));
    let v = before.protocol_version;
    if before.received_since_send {
        assert(before.heartbeat_owed());
        let hb = h.unreliable_send_packets@.last();
        assert(h.unreliable_send_packets@ =~= seq![hb]);
        assert(seq![hb].drop_last() =~= Seq::<Packet<S>>::empty());
        assert(seq![hb].last() == hb);
        assert(frames_of(v, Seq::<Packet<S>>::empty()) == Seq::<Seq<u8>>::empty());
        assert(frames_of(v, seq![hb]) == push_frame(Seq::empty(), frame_of(v, hb)));
        assert(frames =~= push_frame(Seq::empty(), frame_of(v, hb)));
    } else {
        assert(frames_of(v, Seq::<Packet<S>>::empty()) == Seq::<Seq<u8>>::empty());
    }
}

/// A pending packet is not sent again before its resend interval has passed: going through
/// the `k` indices from `start` on at a send leaves a packet last sent at `t` untouched while
/// `now` is not more than the interval after `t`.
#[verifier::rlimit(30)]
pub proof fn law_no_resend_within_interval<S: ByteRepr>(
    cfg: FixedResend,
    version: u32,
    m: Map<u16, PendingPacket<S>>,
    start: u16,
    k: nat,
    now: u64,
)
    requires
        k <= 32,
    ensures
        forall|j: int|
            0 <= j < k && m.contains_key(#[trigger] wadd(start, j))
                && m[wadd(start, j)].resend_context.last_send_ms is Some && !(now
                >= m[wadd(start, j)].resend_context.last_send_ms->Some_0 && now
                - m[wadd(start, j)].resend_context.last_send_ms->Some_0 > cfg.resend_interval_ms)
                ==> {
                let res = spec_resend_all(cfg, version, m, start, k, now).1;
                res.contains_key(wadd(start, j)) && res[wadd(start, j)] == m[wadd(start, j)]
            },
    decreases k,
{
    if k > 0 {
        law_no_resend_within_interval(cfg, version, m, start, (k - 1) as nat, now);
        let idx = wadd(start, k - 1);
        assert forall|i: int| 0 <= i < k - 1 implies wadd(start, i) != idx by {
            crate::ring_buffer::lemma_dist_wadd(start, k - 1, i);
        }
        lemma_resend_all_untouched(cfg, version, m, start, (k - 1) as nat, now, idx);
        let res = spec_resend_all(cfg, version, m, start, k, now).1;
        let prev = spec_resend_all(cfg, version, m, start, (k - 1) as nat, now).1;
        assert forall|j: int|
            0 <= j < k && m.contains_key(#[trigger] wadd(start, j))
                && m[wadd(start, j)].resend_context.last_send_ms is Some && !(now
                >= m[wadd(start, j)].resend_context.last_send_ms->Some_0 && now
                - m[wadd(start, j)].resend_context.last_send_ms->Some_0 > cfg.resend_interval_ms)
                implies res.contains_key(wadd(start, j)) && res[wadd(start, j)] == m[wadd(start, j)] by {
            if j < k - 1 {
                crate::ring_buffer::lemma_dist_wadd(start, k - 1, j);
                assert(wadd(start, j) != idx);
            } else {
                assert(prev.contains_key(idx) && prev[idx] == m[idx]);
            }
        }
    }
}

/// What taking in an unreliable packet or a heartbeat hands out: an unreliable packet's
/// messages are handed out, in order, after the unordered messages received before, and a
/// heartbeat hands out nothing; both are accepted, record the time and owe the other side a
/// heartbeat. Fragments are not taken in: nothing changes.
pub proof fn law_receive_hands_out<S, R>(
    before: InnerUdpCommunicator<S, R>,
    after: InnerUdpCommunicator<S, R>,
    packet: Packet<R>,
    now: u64,
    r: Option<Result<(), Error>>,
)
    requires
        before.wf(),
        after.received(&before, packet, now, r),
    ensures
        (packet.ty is Heartbeat || packet.ty is Unreliable) ==> {
            &&& r == Some(Ok::<(), Error>(()))
            &&& after.ordered_recv_queue == before.ordered_recv_queue
            &&& after.reliable_received_packets == before.reliable_received_packets
            &&& after.reliable_ordered_received_packets == before.reliable_ordered_received_packets
            &&& after.received_since_send
            &&& after.last_seen == now
        },
        packet.ty is Heartbeat ==> after.unordered_recv_queue == before.unordered_recv_queue,
        packet.ty is Unreliable ==> after.unordered_recv_queue@ == before.unordered_recv_queue@
            + packet.ty->Unreliable_messages@,
        (packet.ty is UnreliableFragment || packet.ty is ReliableOrderedFragment) ==> r is None
            && after == before,
{
}

} // verus!
