//! Ordered delivery over many arrivals: the reliable ordered packets of a window, received in
//! any order and any number of times, hand out their messages once each, in id order.
use vstd::prelude::*;
use crate::communicator::{
    all_present, drain_run, lemma_run_len, run_len, run_msgs, spec_too_old, vec_views,
    InnerUdpCommunicator,
};
use crate::error::Error;
use crate::packet::Packet;
use crate::reliable_ordered::ReliableOrdered;
use crate::ring_buffer::{
    dist, in_window, index_space, keep_window, lemma_dist_wadd, lemma_wadd_wadd, spec_insert,
    spec_wrapping_gt, wadd, wsub,
};

verus! {

/// The ordered receive side of a communicator, as values: the packets received by id, with the
/// messages not handed out yet; the newest id received; the id of the next packet to hand out;
/// and the messages handed out so far.
pub struct OrderedSide<R> {
    pub ring: Map<u16, Seq<R>>,
    pub newest: u16,
    pub head: u16,
    pub queue: Seq<R>,
}

/// What taking in the reliable ordered packet `seq` with `msgs` does to `s`: a packet received
/// before or too old changes nothing; otherwise it is stored, and the messages of the packets
/// from the head on are handed out, in order, up to the first missing one.
pub open spec fn ordered_step<R>(s: OrderedSide<R>, seq: u16, msgs: Seq<R>) -> OrderedSide<R> {
    if s.ring.contains_key(seq) || spec_too_old(s.newest, seq) {
        s
    } else {
        let ins = spec_insert(s.ring, s.newest, seq, msgs, 32);
        let k = run_len(ins.1, s.head, 32);
        OrderedSide {
            ring: drain_run(ins.1, s.head, k),
            newest: ins.0,
            head: wadd(s.head, k as int),
            queue: s.queue + run_msgs(ins.1, s.head, k),
        }
    }
}

/// Taking in, one after the other, the packets `h + a` with the messages `pk[a]` for each
/// offset `a` of `arrivals`.
pub open spec fn ordered_steps<R>(
    s: OrderedSide<R>,
    h: u16,
    pk: Seq<Seq<R>>,
    arrivals: Seq<int>,
) -> OrderedSide<R>
    decreases arrivals.len(),
{
    if arrivals.len() == 0 {
        s
    } else {
        ordered_steps(
            ordered_step(s, wadd(h, arrivals[0]), pk[arrivals[0]]),
            h,
            pk,
            arrivals.drop_first(),
        )
    }
}

/// The run of held indices from `head` on, capped at `k`: it is held, and the index after it
/// is not, unless the cap was reached.
proof fn lemma_run_len_props<X>(m: Map<u16, X>, head: u16, k: nat)
    ensures
        run_len(m, head, k) <= k,
        all_present(m, head, run_len(m, head, k)),
        run_len(m, head, k) < k ==> !m.contains_key(wadd(head, run_len(m, head, k) as int)),
    decreases k,
{
    if k > 0 && !all_present(m, head, k) {
        lemma_run_len_props(m, head, (k - 1) as nat);
        let r = run_len(m, head, (k - 1) as nat);
        if r == k - 1 {
            assert(!m.contains_key(wadd(head, r as int)));
        }
    }
}

/// Where `y` lies less than 64 indices after `x`, `x` is not greater than `y`.
proof fn lemma_not_gt(x: u16, y: u16)
    requires
        dist(y, x) < 64,
    ensures
        !spec_wrapping_gt(x, y, 64),
{
}

/// What stays true while the packets `h`, `h + 1`, ..., `h + pk.len() - 1` arrive: every
/// packet received lies among them; the head follows the run of packets received from `h` on,
/// which have handed out their messages, in order, after `q0`; the others keep theirs; and the
/// newest id lies in the window, at or after every packet received.
pub open spec fn delivery_inv<R>(s: OrderedSide<R>, h: u16, pk: Seq<Seq<R>>, q0: Seq<R>) -> bool {
    let n = pk.len();
    let d = run_len(s.ring, h, n);
    let nt = dist(wadd(s.newest, 1), h);
    &&& n <= 32
    &&& forall|x: u16| #[trigger] s.ring.contains_key(x) ==> dist(x, h) < n
    &&& s.head == wadd(h, d as int)
    &&& s.queue == q0 + pk.take(d as int).flatten_alt()
    &&& forall|j: int|
        0 <= j < n && #[trigger] s.ring.contains_key(wadd(h, j)) ==> s.ring[wadd(h, j)] == (if j
            < d {
            Seq::<R>::empty()
        } else {
            pk[j]
        })
    &&& nt <= n
    &&& forall|j: int| 0 <= j < n && #[trigger] s.ring.contains_key(wadd(h, j)) ==> j < nt
}

/// A run that holds `i` indices is at least `i` long.
proof fn lemma_run_len_ge<X>(m: Map<u16, X>, head: u16, i: nat, k: nat)
    requires
        i <= k,
        all_present(m, head, i),
    ensures
        run_len(m, head, k) >= i,
    decreases k,
{
    if k > 0 && !all_present(m, head, k) && i < k {
        lemma_run_len_ge(m, head, i, (k - 1) as nat);
    }
}

/// The messages of the `t` packets from `h + d` on, handed out after those of the packets
/// before `h + d`, are those of the packets before `h + d + t`.
proof fn lemma_run_msgs<R>(m: Map<u16, Seq<R>>, h: u16, pk: Seq<Seq<R>>, d: int, t: nat)
    requires
        0 <= d,
        d + t <= pk.len(),
        forall|i: int| 0 <= i < t ==> #[trigger] m[wadd(wadd(h, d), i)] == pk[d + i],
    ensures
        pk.take(d).flatten_alt() + run_msgs(m, wadd(h, d), t) == pk.take(d + t).flatten_alt(),
    decreases t,
{
    if t == 0 {
        assert(pk.take(d).flatten_alt() + Seq::<R>::empty() =~= pk.take(d).flatten_alt());
    } else {
        lemma_run_msgs(m, h, pk, d, (t - 1) as nat);
        assert(m[wadd(wadd(h, d), t - 1)] == pk[d + t - 1]);
        assert(pk.take(d + t).drop_last() =~= pk.take(d + t - 1));
        assert(pk.take(d + t).last() == pk[d + t - 1]);
        assert(pk.take(d).flatten_alt() + run_msgs(m, wadd(h, d), t) =~= pk.take(d).flatten_alt()
            + run_msgs(m, wadd(h, d), (t - 1) as nat) + pk[d + t - 1]);
    }
}

/// Taking in a new packet `h + j` of a window of `n` that ends at or before `h + n - 1`: it is
/// not too old, it is stored without dropping anything, and the window then ends at the later
/// of its old end and the packet.
#[verifier::rlimit(30)]
proof fn lemma_step_insert<R>(ring: Map<u16, Seq<R>>, newest: u16, h: u16, n: int, j: int, msgs: Seq<R>)
    requires
        n <= 32,
        0 <= j < n,
        !ring.contains_key(wadd(h, j)),
        dist(wadd(newest, 1), h) <= n,
        forall|x: u16| #[trigger] ring.contains_key(x) ==> dist(x, h) < dist(wadd(newest, 1), h),
    ensures
        !spec_too_old(newest, wadd(h, j)),
        spec_insert(ring, newest, wadd(h, j), msgs, 32).1 == ring.insert(wadd(h, j), msgs),
        dist(wadd(spec_insert(ring, newest, wadd(h, j), msgs, 32).0, 1), h) == (if j < dist(
            wadd(newest, 1),
            h,
        ) {
            dist(wadd(newest, 1), h)
        } else {
            j + 1
        }),
{
    let m = index_space();
    let seq = wadd(h, j);
    let nt = dist(wadd(newest, 1), h);
    crate::ring_buffer::lemma_wadd_dist(wadd(newest, 1), h);
    assert(newest == wadd(h, nt - 1));
    assert(wsub(newest, 31) == wadd(h, nt - 32));
    lemma_dist_wadd(h, j, nt - 32);
    lemma_not_gt(wsub(newest, 31), seq);
    let ins = spec_insert(ring, newest, seq, msgs, 32);
    if j < nt {
        lemma_dist_wadd(h, nt - 1, j);
        assert(in_window(newest, seq, 32));
    } else {
        assert(wadd(h, nt - 1 + m) == wadd(h, nt - 1));
        lemma_dist_wadd(h, nt - 1 + m, j);
        assert(!in_window(newest, seq, 32));
        lemma_dist_wadd(h, j, nt - 1);
        if j - nt + 1 < 32 {
            assert forall|x: u16| #[trigger] ring.contains_key(x) implies in_window(seq, x, 32) by {
                crate::ring_buffer::lemma_wadd_dist(x, h);
                lemma_dist_wadd(h, j, dist(x, h));
            }
            assert(keep_window(ring, seq, 32) =~= ring);
        } else {
            assert(ring =~= Map::<u16, Seq<R>>::empty());
        }
        assert(ins.1 =~= ring.insert(seq, msgs));
        assert(wadd(seq, 1) == wadd(h, j + 1));
        assert(wadd(h, 0) == h);
        lemma_dist_wadd(h, j + 1, 0);
    }
}

/// In a map whose indices lie less than `n` after `h`, the run from `h + d` on, where `d` is
/// at most the run from `h` on, is the rest of the run from `h` on.
proof fn lemma_step_run<R>(m1: Map<u16, Seq<R>>, h: u16, n: int, d: int)
    requires
        0 <= d <= n <= 32,
        all_present(m1, h, d as nat),
        forall|x: u16| #[trigger] m1.contains_key(x) ==> dist(x, h) < n,
    ensures
        run_len(m1, h, n as nat) >= d,
        run_len(m1, wadd(h, d), 32) == run_len(m1, h, n as nat) - d,
{
    let head = wadd(h, d);
    let d1 = run_len(m1, h, n as nat) as int;
    lemma_run_len_props(m1, h, n as nat);
    lemma_run_len_ge(m1, h, d as nat, n as nat);
    assert forall|i: int| 0 <= i < d1 - d implies #[trigger] m1.contains_key(wadd(head, i)) by {
        assert(wadd(head, i) == wadd(h, d + i));
        assert(m1.contains_key(wadd(h, d + i)));
    }
    assert(all_present(m1, head, (d1 - d) as nat));
    if d1 - d < 32 {
        assert(wadd(head, d1 - d) == wadd(h, d1));
        if d1 == n {
            assert(wadd(h, 0) == h);
            lemma_dist_wadd(h, n, 0);
        }
        assert(!m1.contains_key(wadd(head, d1 - d)));
    }
    lemma_run_len(m1, head, (d1 - d) as nat, 32);
}

/// After storing the packet `h + j` and handing out the messages of the packets from `h + d`
/// to before `h + d1`, the packets before `h + d1` hold no messages and the others keep theirs.
#[verifier::rlimit(30)]
proof fn lemma_step_values<R>(ring: Map<u16, Seq<R>>, h: u16, pk: Seq<Seq<R>>, d: int, d1: int, j: int)
    requires
        0 <= d <= j < pk.len() <= 32,
        d <= d1 <= pk.len(),
        forall|jj: int|
            0 <= jj < pk.len() && #[trigger] ring.contains_key(wadd(h, jj)) ==> ring[wadd(h, jj)]
                == (if jj < d {
                Seq::<R>::empty()
            } else {
                pk[jj]
            }),
    ensures
        ({
            let m1 = ring.insert(wadd(h, j), pk[j]);
            let r = drain_run(m1, wadd(h, d), (d1 - d) as nat);
            forall|jj: int|
                0 <= jj < pk.len() && #[trigger] r.contains_key(wadd(h, jj)) ==> r[wadd(h, jj)] == (
                if jj < d1 {
                    Seq::<R>::empty()
                } else {
                    pk[jj]
                })
        }),
{
    let m = index_space();
    let m1 = ring.insert(wadd(h, j), pk[j]);
    let r = drain_run(m1, wadd(h, d), (d1 - d) as nat);
    assert(wadd(h, 0) == h);
    assert forall|jj: int| 0 <= jj < pk.len() && #[trigger] r.contains_key(wadd(h, jj)) implies r[wadd(
        h,
        jj,
    )] == (if jj < d1 {
        Seq::<R>::empty()
    } else {
        pk[jj]
    }) by {
        let x = wadd(h, jj);
        if jj >= d {
            lemma_dist_wadd(h, jj, d);
        } else {
            assert(wadd(h, jj + m) == x);
            lemma_dist_wadd(h, jj + m, d);
        }
        if jj != j {
            lemma_dist_wadd(h, jj, 0);
            lemma_dist_wadd(h, j, 0);
            assert(x != wadd(h, j));
        }
    }
}

/// Before taking in a new packet `h + j`: it lies at or after the end of the run from `h`, it
/// is not too old, it is stored without dropping anything, the window then ends where
/// [`lemma_step_insert`] says, and the packets held afterwards still lie in the window from `h`
/// and hold that run.
#[verifier::rlimit(30)]
proof fn lemma_step_before<R>(s: OrderedSide<R>, h: u16, pk: Seq<Seq<R>>, q0: Seq<R>, j: int)
    requires
        delivery_inv(s, h, pk, q0),
        0 <= j < pk.len(),
        !s.ring.contains_key(wadd(h, j)),
    ensures
        ({
            let n = pk.len() as int;
            let seq = wadd(h, j);
            let nt = dist(wadd(s.newest, 1), h);
            let m1 = s.ring.insert(seq, pk[j]);
            let d = run_len(s.ring, h, n as nat) as int;
            &&& d <= j
            &&& !spec_too_old(s.newest, seq)
            &&& spec_insert(s.ring, s.newest, seq, pk[j], 32).1 == m1
            &&& dist(wadd(spec_insert(s.ring, s.newest, seq, pk[j], 32).0, 1), h) == (if j < nt {
                nt
            } else {
                j + 1
            })
            &&& all_present(m1, h, d as nat)
            &&& forall|x: u16| #[trigger] m1.contains_key(x) ==> dist(x, h) < n
        }),
{
    let n = pk.len() as int;
    let ring = s.ring;
    let nt = dist(wadd(s.newest, 1), h);
    let d = run_len(ring, h, n as nat) as int;
    lemma_run_len_props(ring, h, n as nat);
    assert(wadd(h, 0) == h);
    lemma_dist_wadd(h, j, 0);
    assert forall|x: u16| #[trigger] ring.contains_key(x) implies dist(x, h) < nt by {
        crate::ring_buffer::lemma_wadd_dist(x, h);
    }
    assert(j >= d) by {
        if j < d {
            assert(ring.contains_key(wadd(h, j)));
        }
    }
    lemma_step_insert(ring, s.newest, h, n, j, pk[j]);
}

/// Where the `k` packets from `h + d` on are held once `h + j` is stored, their messages,
/// handed out after those of the packets before `h + d`, are those of the packets before
/// `h + d + k`.
proof fn lemma_step_msgs<R>(ring: Map<u16, Seq<R>>, h: u16, pk: Seq<Seq<R>>, d: int, j: int, k: int)
    requires
        0 <= d,
        0 <= k,
        d + k <= pk.len() <= 32,
        0 <= j < pk.len(),
        forall|jj: int|
            d <= jj < pk.len() && #[trigger] ring.contains_key(wadd(h, jj)) ==> ring[wadd(h, jj)]
                == pk[jj],
        all_present(ring.insert(wadd(h, j), pk[j]), wadd(h, d), k as nat),
    ensures
        pk.take(d).flatten_alt() + run_msgs(ring.insert(wadd(h, j), pk[j]), wadd(h, d), k as nat)
            == pk.take(d + k).flatten_alt(),
{
    let m1 = ring.insert(wadd(h, j), pk[j]);
    assert(wadd(h, 0) == h);
    assert forall|i: int| 0 <= i < k implies #[trigger] m1[wadd(wadd(h, d), i)] == pk[d + i] by {
        let x = wadd(h, d + i);
        lemma_wadd_wadd(h, d, i);
        assert(m1.contains_key(wadd(wadd(h, d), i)));
        if x == wadd(h, j) {
            lemma_dist_wadd(h, d + i, 0);
            lemma_dist_wadd(h, j, 0);
        } else {
            assert(ring.contains_key(x));
        }
    }
    lemma_run_msgs(m1, h, pk, d, k as nat);
}

/// After taking in a new packet `h + j`: the run from `h` grows from `d` to `d1`, the head
/// moves to `h + d1`, and the messages of the packets from `h + d` to before `h + d1` are handed
/// out after the others.
#[verifier::rlimit(30)]
proof fn lemma_step_delivered<R>(s: OrderedSide<R>, h: u16, pk: Seq<Seq<R>>, q0: Seq<R>, j: int)
    requires
        pk.len() <= 32,
        s.head == wadd(h, run_len(s.ring, h, pk.len()) as int),
        s.queue == q0 + pk.take(run_len(s.ring, h, pk.len()) as int).flatten_alt(),
        forall|jj: int|
            run_len(s.ring, h, pk.len()) <= jj < pk.len() && #[trigger] s.ring.contains_key(
                wadd(h, jj),
            ) ==> s.ring[wadd(h, jj)] == pk[jj],
        0 <= j < pk.len(),
        !s.ring.contains_key(wadd(h, j)),
        run_len(s.ring, h, pk.len()) <= j,
        !spec_too_old(s.newest, wadd(h, j)),
        spec_insert(s.ring, s.newest, wadd(h, j), pk[j], 32).1 == s.ring.insert(wadd(h, j), pk[j]),
        all_present(s.ring.insert(wadd(h, j), pk[j]), h, run_len(s.ring, h, pk.len())),
        forall|x: u16| #[trigger] s.ring.insert(wadd(h, j), pk[j]).contains_key(x) ==> dist(x, h) < pk.len(),
    ensures
        ({
            let m1 = s.ring.insert(wadd(h, j), pk[j]);
            let d = run_len(s.ring, h, pk.len()) as int;
            let d1 = run_len(m1, h, pk.len()) as int;
            let t = ordered_step(s, wadd(h, j), pk[j]);
            &&& d <= d1 <= pk.len()
            &&& t.ring == drain_run(m1, s.head, (d1 - d) as nat)
            &&& t.head == wadd(h, d1)
            &&& t.queue == q0 + pk.take(d1).flatten_alt()
        }),
{
    let n = pk.len() as int;
    let m1 = s.ring.insert(wadd(h, j), pk[j]);
    let d = run_len(s.ring, h, n as nat) as int;
    lemma_step_run(m1, h, n, d);
    lemma_run_len_props(m1, h, n as nat);
    let d1 = run_len(m1, h, n as nat) as int;
    let k = d1 - d;
    lemma_run_len_props(m1, wadd(h, d), 32);
    lemma_step_msgs(s.ring, h, pk, d, j, k);
    lemma_wadd_wadd(h, d, k);
}

/// After taking in a new packet `h + j`: the packets held are those held before and `h + j`,
/// those before the end `d1` of the run from `h` hold no messages and the others keep theirs,
/// and the run from `h` is still `d1` long.
#[verifier::rlimit(30)]
proof fn lemma_step_held<R>(s: OrderedSide<R>, h: u16, pk: Seq<Seq<R>>, q0: Seq<R>, j: int, d1: int)
    requires
        delivery_inv(s, h, pk, q0),
        0 <= j < pk.len(),
        run_len(s.ring, h, pk.len()) <= j,
        run_len(s.ring, h, pk.len()) <= d1 <= pk.len(),
        d1 == run_len(s.ring.insert(wadd(h, j), pk[j]), h, pk.len()),
    ensures
        ({
            let m1 = s.ring.insert(wadd(h, j), pk[j]);
            let d = run_len(s.ring, h, pk.len()) as int;
            let r = drain_run(m1, wadd(h, d), (d1 - d) as nat);
            &&& forall|x: u16| #[trigger] r.contains_key(x) == m1.contains_key(x)
            &&& run_len(r, h, pk.len()) == d1
            &&& forall|jj: int|
                0 <= jj < pk.len() && #[trigger] r.contains_key(wadd(h, jj)) ==> r[wadd(h, jj)] == (
                if jj < d1 {
                    Seq::<R>::empty()
                } else {
                    pk[jj]
                })
        }),
{
    let m1 = s.ring.insert(wadd(h, j), pk[j]);
    let d = run_len(s.ring, h, pk.len()) as int;
    let r = drain_run(m1, wadd(h, d), (d1 - d) as nat);
    lemma_step_values(s.ring, h, pk, d, d1, j);
    assert forall|x: u16| #[trigger] r.contains_key(x) == m1.contains_key(x) by {}
    lemma_run_len_same_dom(r, m1, h, pk.len());
}

/// Taking in the packet `h + j` keeps [`delivery_inv`], holds that packet afterwards, and
/// keeps every packet held before.
#[verifier::rlimit(30)]
pub proof fn lemma_delivery_step<R>(s: OrderedSide<R>, h: u16, pk: Seq<Seq<R>>, q0: Seq<R>, j: int)
    requires
        delivery_inv(s, h, pk, q0),
        0 <= j < pk.len(),
    ensures
        ({
            let t = ordered_step(s, wadd(h, j), pk[j]);
            &&& delivery_inv(t, h, pk, q0)
            &&& t.ring.contains_key(wadd(h, j))
            &&& forall|x: u16| #[trigger] s.ring.contains_key(x) ==> t.ring.contains_key(x)
        }),
{
    let n = pk.len() as int;
    let seq = wadd(h, j);
    if s.ring.contains_key(seq) {
        return;
    }
    lemma_step_before(s, h, pk, q0, j);
    lemma_step_delivered(s, h, pk, q0, j);
    let m1 = s.ring.insert(seq, pk[j]);
    let d1 = run_len(m1, h, n as nat) as int;
    lemma_step_held(s, h, pk, q0, j, d1);
    let t = ordered_step(s, seq, pk[j]);
    let nt = dist(wadd(s.newest, 1), h);
    let nt1 = if j < nt {
        nt
    } else {
        j + 1
    };
    assert(wadd(h, 0) == h);
    assert forall|jj: int| 0 <= jj < n && #[trigger] t.ring.contains_key(wadd(h, jj)) implies jj < nt1 by {
        lemma_dist_wadd(h, jj, 0);
        lemma_dist_wadd(h, j, 0);
    }
    assert forall|x: u16| #[trigger] t.ring.contains_key(x) implies dist(x, h) < n by {
        assert(m1.contains_key(x));
    }
}

/// The run depends on the held indices alone.
proof fn lemma_run_len_same_dom<X, Y>(a: Map<u16, X>, b: Map<u16, Y>, head: u16, k: nat)
    requires
        forall|x: u16| #[trigger] a.contains_key(x) == b.contains_key(x),
    ensures
        run_len(a, head, k) == run_len(b, head, k),
    decreases k,
{
    if k > 0 {
        if all_present(a, head, k) {
            assert forall|j: int| 0 <= j < k implies #[trigger] b.contains_key(wadd(head, j)) by {
                assert(a.contains_key(wadd(head, j)));
            }
        }
        if all_present(b, head, k) {
            assert forall|j: int| 0 <= j < k implies #[trigger] a.contains_key(wadd(head, j)) by {
                assert(b.contains_key(wadd(head, j)));
            }
        }
        lemma_run_len_same_dom(a, b, head, (k - 1) as nat);
    }
}

/// Taking in the packets of `arrivals`, offsets into the window from `h`, keeps
/// [`delivery_inv`], keeps every packet held before, and holds every packet that arrived.
pub proof fn lemma_delivery_steps<R>(
    s: OrderedSide<R>,
    h: u16,
    pk: Seq<Seq<R>>,
    q0: Seq<R>,
    arrivals: Seq<int>,
)
    requires
        delivery_inv(s, h, pk, q0),
        forall|i: int| 0 <= i < arrivals.len() ==> 0 <= #[trigger] arrivals[i] < pk.len(),
    ensures
        ({
            let t = ordered_steps(s, h, pk, arrivals);
            &&& delivery_inv(t, h, pk, q0)
            &&& forall|x: u16| #[trigger] s.ring.contains_key(x) ==> t.ring.contains_key(x)
            &&& forall|i: int|
                0 <= i < arrivals.len() ==> t.ring.contains_key(wadd(h, #[trigger] arrivals[i]))
        }),
    decreases arrivals.len(),
{
    if arrivals.len() > 0 {
        let j = arrivals[0];
        let s1 = ordered_step(s, wadd(h, j), pk[j]);
        lemma_delivery_step(s, h, pk, q0, j);
        let rest = arrivals.drop_first();
        assert forall|i: int| 0 <= i < rest.len() implies 0 <= #[trigger] rest[i] < pk.len() by {
            assert(rest[i] == arrivals[i + 1]);
        }
        lemma_delivery_steps(s1, h, pk, q0, rest);
        let t = ordered_steps(s1, h, pk, rest);
        assert(t == ordered_steps(s, h, pk, arrivals));
        assert forall|i: int| 0 <= i < arrivals.len() implies t.ring.contains_key(
            wadd(h, #[trigger] arrivals[i]),
        ) by {
            if i > 0 {
                assert(arrivals[i] == rest[i - 1]);
            }
        }
    }
}

/// The state of the ordered receive side before any packet of the window from `h` arrived:
/// nothing held, the newest id just before `h`, the head at `h`, and `q0` handed out.
pub open spec fn ordered_start<R>(h: u16, q0: Seq<R>) -> OrderedSide<R> {
    OrderedSide { ring: Map::empty(), newest: wsub(h, 1), head: h, queue: q0 }
}

/// Delivery from a state that holds no packet: the packets `h`, ..., `h + n - 1` arriving as
/// `arrivals` hand out their messages in order, the head ends at `h + n`, and the newest id just
/// before it.
proof fn lemma_fresh_delivery<R>(h: u16, pk: Seq<Seq<R>>, q0: Seq<R>, arrivals: Seq<int>)
    requires
        pk.len() <= 32,
        forall|i: int| 0 <= i < arrivals.len() ==> 0 <= #[trigger] arrivals[i] < pk.len(),
        forall|j: int| 0 <= j < pk.len() ==> #[trigger] arrivals.contains(j),
    ensures
        ({
            let t = ordered_steps(ordered_start(h, q0), h, pk, arrivals);
            &&& t.queue == q0 + pk.flatten_alt()
            &&& t.head == wadd(h, pk.len() as int)
            &&& t.newest == wsub(t.head, 1)
        }),
{
    let n = pk.len();
    let s0 = ordered_start(h, q0);
    assert(wadd(wsub(h, 1), 1) == h);
    assert(wadd(h, 0) == h);
    lemma_dist_wadd(h, 0, 0);
    assert(run_len(s0.ring, h, n) == 0) by {
        lemma_run_len(s0.ring, h, 0, n);
    }
    assert(pk.take(0) =~= Seq::<Seq<R>>::empty());
    assert(q0 + Seq::<Seq<R>>::empty().flatten_alt() =~= q0);
    assert(delivery_inv(s0, h, pk, q0));
    lemma_delivery_steps(s0, h, pk, q0, arrivals);
    let t = ordered_steps(s0, h, pk, arrivals);
    assert(all_present(t.ring, h, n)) by {
        assert forall|j: int| 0 <= j < n implies #[trigger] t.ring.contains_key(wadd(h, j)) by {
            assert(arrivals.contains(j));
            let i = choose|i: int| 0 <= i < arrivals.len() && arrivals[i] == j;
            assert(t.ring.contains_key(wadd(h, arrivals[i])));
        }
    }
    lemma_run_len(t.ring, h, n, n);
    assert(pk.take(n as int) =~= pk);
    if n == 0 {
        if arrivals.len() > 0 {
            assert(0 <= arrivals[0] < 0);
        }
        assert(t == s0);
    } else {
        let nt = dist(wadd(t.newest, 1), h);
        assert(t.ring.contains_key(wadd(h, n - 1)));
        assert(nt == n);
        crate::ring_buffer::lemma_wadd_dist(wadd(t.newest, 1), h);
        lemma_wsub_wadd_one(t.newest);
    }
}

/// One step forward and one back.
proof fn lemma_wsub_wadd_one(x: u16)
    ensures
        wsub(wadd(x, 1), 1) == x,
{
}

/// The indices less than `n` steps after `h`.
pub open spec fn in_range(h: u16, n: nat) -> Set<u16> {
    Set::new(|x: u16| dist(x, h) < n)
}

/// `s` with only the packets of the window `h`, ..., `h + n - 1` held.
pub open spec fn window_part<R>(s: OrderedSide<R>, h: u16, n: nat) -> OrderedSide<R> {
    OrderedSide { ring: s.ring.restrict(in_range(h, n)), newest: s.newest, head: s.head, queue: s.queue }
}

/// Every packet held in `s` either lies in the window `h`, ..., `h + n - 1` or is one of the 32
/// before `h`.
pub open spec fn held_near<R>(s: OrderedSide<R>, h: u16, n: nat) -> bool {
    forall|x: u16|
        #[trigger] s.ring.contains_key(x) ==> dist(x, h) < n || 1 <= dist(h, x) <= 32
}

/// Two different indices lie the whole index space apart, counted both ways.
proof fn lemma_dist_both_ways(a: u16, b: u16)
    ensures
        a == b ==> dist(a, b) == 0,
        a != b ==> dist(a, b) + dist(b, a) == index_space(),
{
}

/// A packet within the 32 ids up to `h - 1` lies 1 to 32 steps before `h`.
proof fn lemma_before_head(h: u16, x: u16)
    requires
        in_window(wsub(h, 1), x, 32),
    ensures
        1 <= dist(h, x) <= 32,
        dist(x, h) >= index_space() - 32,
{
    lemma_dist_both_ways(h, x);
}

/// Runs from `head` agree where the two maps hold the same indices along them.
proof fn lemma_run_len_same_on<X, Y>(a: Map<u16, X>, b: Map<u16, Y>, head: u16, k: nat)
    requires
        forall|i: int|
            0 <= i < k ==> (#[trigger] a.contains_key(wadd(head, i)) == b.contains_key(
                wadd(head, i),
            )),
    ensures
        run_len(a, head, k) == run_len(b, head, k),
    decreases k,
{
    if k > 0 {
        if all_present(a, head, k) {
            assert forall|j: int| 0 <= j < k implies #[trigger] b.contains_key(wadd(head, j)) by {
                assert(a.contains_key(wadd(head, j)));
            }
        }
        if all_present(b, head, k) {
            assert forall|j: int| 0 <= j < k implies #[trigger] a.contains_key(wadd(head, j)) by {
                assert(a.contains_key(wadd(head, j)) == b.contains_key(wadd(head, j)));
            }
        }
        lemma_run_len_same_on(a, b, head, (k - 1) as nat);
    }
}

/// Runs from `head` hand out the same messages where the two maps agree along them.
proof fn lemma_run_msgs_same<X>(a: Map<u16, Seq<X>>, b: Map<u16, Seq<X>>, head: u16, k: nat)
    requires
        forall|i: int| 0 <= i < k ==> #[trigger] a[wadd(head, i)] == b[wadd(head, i)],
    ensures
        run_msgs(a, head, k) == run_msgs(b, head, k),
    decreases k,
{
    if k > 0 {
        lemma_run_msgs_same(a, b, head, (k - 1) as nat);
        assert(a[wadd(head, k - 1)] == b[wadd(head, k - 1)]);
    }
}

/// Taking in a packet of the window from `h` does the same to the packets of the window
/// whether or not packets before `h` are held, and holds no new packet outside the window.
#[verifier::rlimit(30)]
proof fn lemma_step_window<R>(s: OrderedSide<R>, h: u16, pk: Seq<Seq<R>>, q0: Seq<R>, j: int)
    requires
        held_near(s, h, pk.len()),
        delivery_inv(window_part(s, h, pk.len()), h, pk, q0),
        0 <= j < pk.len(),
    ensures
        ({
            let t = ordered_step(s, wadd(h, j), pk[j]);
            &&& window_part(t, h, pk.len()) == ordered_step(
                window_part(s, h, pk.len()),
                wadd(h, j),
                pk[j],
            )
            &&& held_near(t, h, pk.len())
        }),
{
    let n = pk.len();
    let rg = in_range(h, n);
    let seq = wadd(h, j);
    let p = window_part(s, h, n);
    assert(wadd(h, 0) == h);
    lemma_dist_wadd(h, j, 0);
    assert(rg.contains(seq));
    assert(s.ring.contains_key(seq) == p.ring.contains_key(seq));
    if s.ring.contains_key(seq) || spec_too_old(s.newest, seq) {
        return;
    }
    let ins = spec_insert(s.ring, s.newest, seq, pk[j], 32);
    let ins2 = spec_insert(p.ring, s.newest, seq, pk[j], 32);
    assert(ins2.1 =~= ins.1.restrict(rg));
    assert forall|x: u16| #[trigger] ins.1.contains_key(x) implies x == seq || s.ring.contains_key(
        x,
    ) by {}
    let head = s.head;
    let d = run_len(p.ring, h, n) as int;
    lemma_run_len_props(p.ring, h, n);
    assert forall|i: int| 0 <= i < 32 implies (#[trigger] ins.1.contains_key(wadd(head, i))
        == ins2.1.contains_key(wadd(head, i))) by {
        let y = wadd(head, i);
        lemma_wadd_wadd(h, d, i);
        lemma_dist_wadd(h, d + i, 0);
        if !rg.contains(y) && ins.1.contains_key(y) {
            assert(s.ring.contains_key(y));
            lemma_dist_both_ways(y, h);
        }
    }
    lemma_run_len_same_on(ins.1, ins2.1, head, 32);
    let k = run_len(ins.1, head, 32);
    lemma_run_len_props(ins.1, head, 32);
    assert forall|i: int| 0 <= i < k implies #[trigger] ins.1[wadd(head, i)] == ins2.1[wadd(
        head,
        i,
    )] by {
        assert(ins.1.contains_key(wadd(head, i)));
    }
    lemma_run_msgs_same(ins.1, ins2.1, head, k);
    let t = ordered_step(s, seq, pk[j]);
    assert(window_part(t, h, n).ring =~= drain_run(ins2.1, head, k));
}

/// Taking in the packets of `arrivals`, offsets into the window from `h`, does the same to the
/// packets of the window whether or not packets before `h` are held.
proof fn lemma_window_steps<R>(
    s: OrderedSide<R>,
    h: u16,
    pk: Seq<Seq<R>>,
    q0: Seq<R>,
    arrivals: Seq<int>,
)
    requires
        held_near(s, h, pk.len()),
        delivery_inv(window_part(s, h, pk.len()), h, pk, q0),
        forall|i: int| 0 <= i < arrivals.len() ==> 0 <= #[trigger] arrivals[i] < pk.len(),
    ensures
        window_part(ordered_steps(s, h, pk, arrivals), h, pk.len()) == ordered_steps(
            window_part(s, h, pk.len()),
            h,
            pk,
            arrivals,
        ),
    decreases arrivals.len(),
{
    if arrivals.len() > 0 {
        let j = arrivals[0];
        lemma_step_window(s, h, pk, q0, j);
        lemma_delivery_step(window_part(s, h, pk.len()), h, pk, q0, j);
        let rest = arrivals.drop_first();
        assert forall|i: int| 0 <= i < rest.len() implies 0 <= #[trigger] rest[i] < pk.len() by {
            assert(rest[i] == arrivals[i + 1]);
        }
        lemma_window_steps(ordered_step(s, wadd(h, j), pk[j]), h, pk, q0, rest);
    }
}

/// In-order delivery. The read head of `s` is `h` and its newest id `h - 1`, every packet it
/// holds lying among the 32 ids up to `h - 1` (as when it is new, and after every window
/// delivered in full). The reliable ordered packets `h`, `h + 1`, ..., `h + n - 1` (wrapping,
/// at most 32 of them), holding the messages `pk[0]`, ..., `pk[n - 1]`, then arrive in any
/// order and any number of times, each at least once. Then the messages handed out are those
/// of packet `h`, then `h + 1`, and so on, each packet's once and in their order; the read head
/// ends at `h + n` and the newest id just before it, so the next window starts from the same
/// kind of state.
pub proof fn law_ordered_delivery<R>(s: OrderedSide<R>, pk: Seq<Seq<R>>, arrivals: Seq<int>)
    requires
        s.newest == wsub(s.head, 1),
        forall|x: u16| #[trigger] s.ring.contains_key(x) ==> in_window(s.newest, x, 32),
        pk.len() <= 32,
        forall|i: int| 0 <= i < arrivals.len() ==> 0 <= #[trigger] arrivals[i] < pk.len(),
        forall|j: int| 0 <= j < pk.len() ==> #[trigger] arrivals.contains(j),
    ensures
        ({
            let t = ordered_steps(s, s.head, pk, arrivals);
            &&& t.queue == s.queue + pk.flatten_alt()
            &&& t.head == wadd(s.head, pk.len() as int)
            &&& t.newest == wsub(t.head, 1)
        }),
{
    let h = s.head;
    let n = pk.len();
    assert forall|x: u16| #[trigger] s.ring.contains_key(x) implies dist(x, h) >= index_space() - 32
        && 1 <= dist(h, x) <= 32 by {
        lemma_before_head(h, x);
    }
    assert(window_part(s, h, n).ring =~= Map::<u16, Seq<R>>::empty());
    assert(window_part(s, h, n) == ordered_start(h, s.queue));
    lemma_fresh_delivery(h, pk, s.queue, arrivals);
    let s0 = ordered_start(h, s.queue);
    assert(wadd(wsub(h, 1), 1) == h);
    assert(wadd(h, 0) == h);
    lemma_dist_wadd(h, 0, 0);
    assert(run_len(s0.ring, h, n) == 0) by {
        lemma_run_len(s0.ring, h, 0, n);
    }
    assert(pk.take(0) =~= Seq::<Seq<R>>::empty());
    assert(s.queue + Seq::<Seq<R>>::empty().flatten_alt() =~= s.queue);
    assert(delivery_inv(s0, h, pk, s.queue));
    lemma_window_steps(s, h, pk, s.queue, arrivals);
}

/// The ordered receive side of `c`, as values.
pub open spec fn ordered_side<S, R>(c: InnerUdpCommunicator<S, R>) -> OrderedSide<R> {
    OrderedSide {
        ring: vec_views(c.reliable_ordered_received_packets@),
        newest: c.reliable_ordered_received_packets.newest(),
        head: c.ordered_read_packet_head,
        queue: c.ordered_recv_queue@,
    }
}

/// Storing a packet and then taking the messages of each packet is taking the messages of
/// each packet and then storing the packet's.
proof fn lemma_insert_views<R>(m: Map<u16, Vec<R>>, newest: u16, seq: u16, v: Vec<R>)
    ensures
        spec_insert(vec_views(m), newest, seq, v@, 32).0 == spec_insert(m, newest, seq, v, 32).0,
        spec_insert(vec_views(m), newest, seq, v@, 32).1 == vec_views(
            spec_insert(m, newest, seq, v, 32).1,
        ),
{
    let a = spec_insert(vec_views(m), newest, seq, v@, 32).1;
    let b = vec_views(spec_insert(m, newest, seq, v, 32).1);
    assert(a =~= b);
}

/// Taking in a reliable ordered packet, whatever the outcome, does to the ordered receive side
/// what [`ordered_step`] says.
#[verifier::rlimit(30)]
pub proof fn law_receive_ordered_step<S, R>(
    before: InnerUdpCommunicator<S, R>,
    after: InnerUdpCommunicator<S, R>,
    packet: Packet<R>,
    now: u64,
    r: Option<Result<(), Error>>,
)
    requires
        before.wf(),
        packet.ty is ReliableOrdered,
        after.received(&before, packet, now, r),
    ensures
        ordered_side(after) == ordered_step(
            ordered_side(before),
            packet.ack.sequence_id,
            packet.ty->ReliableOrdered_messages@,
        ),
{
    let seq = packet.ack.sequence_id;
    let messages = packet.ty->ReliableOrdered_messages;
    let m = before.reliable_ordered_received_packets@;
    let newest = before.reliable_ordered_received_packets.newest();
    let s = ordered_side(before);
    assert(s.ring.contains_key(seq) == m.contains_key(seq));
    if !m.contains_key(seq) && !spec_too_old(newest, seq) {
        lemma_insert_views(m, newest, seq, messages);
        let ins = spec_insert(m, newest, seq, messages, 32);
        let ins2 = spec_insert(s.ring, newest, seq, messages@, 32);
        let k = run_len(ins2.1, before.ordered_read_packet_head, 32);
        assert(ordered_side(after).ring =~= drain_run(ins2.1, before.ordered_read_packet_head, k));
    }
}

/// `cs[i + 1]` is `cs[i]` after taking in `packets[i]` at `nows[i]` with result `rs[i]`, for
/// each `i`, where `packets[i]` is the reliable ordered packet `h + arrivals[i]` holding the
/// messages `pk[arrivals[i]]`; and each communicator is well formed.
pub open spec fn ordered_arrivals<S, R>(
    cs: Seq<InnerUdpCommunicator<S, R>>,
    packets: Seq<Packet<R>>,
    nows: Seq<u64>,
    rs: Seq<Option<Result<(), Error>>>,
    h: u16,
    pk: Seq<Seq<R>>,
    arrivals: Seq<int>,
) -> bool {
    &&& cs.len() == arrivals.len() + 1
    &&& packets.len() == arrivals.len()
    &&& nows.len() == arrivals.len()
    &&& rs.len() == arrivals.len()
    &&& forall|i: int| 0 <= i < cs.len() ==> #[trigger] cs[i].wf()
    &&& forall|i: int|
        #![trigger packets[i]]
        0 <= i < arrivals.len() ==> {
            &&& packets[i].ty is ReliableOrdered
            &&& packets[i].ack.sequence_id == wadd(h, arrivals[i])
            &&& packets[i].ty->ReliableOrdered_messages@ == pk[arrivals[i]]
            &&& cs[i + 1].received(&cs[i], packets[i], nows[i], rs[i])
        }
}

/// Along such a run of communicators, the ordered receive side of the last is that of `cs[k]`
/// after the arrivals from `k` on.
proof fn lemma_sides_follow<S, R>(
    cs: Seq<InnerUdpCommunicator<S, R>>,
    packets: Seq<Packet<R>>,
    nows: Seq<u64>,
    rs: Seq<Option<Result<(), Error>>>,
    h: u16,
    pk: Seq<Seq<R>>,
    arrivals: Seq<int>,
    k: int,
)
    requires
        ordered_arrivals(cs, packets, nows, rs, h, pk, arrivals),
        0 <= k <= arrivals.len(),
    ensures
        ordered_side(cs[arrivals.len() as int]) == ordered_steps(
            ordered_side(cs[k]),
            h,
            pk,
            arrivals.subrange(k, arrivals.len() as int),
        ),
    decreases arrivals.len() - k,
{
    let len = arrivals.len() as int;
    if k == len {
        assert(arrivals.subrange(k, len).len() == 0);
    } else {
        lemma_sides_follow(cs, packets, nows, rs, h, pk, arrivals, k + 1);
        assert(cs[k].wf());
        let p = packets[k];
        law_receive_ordered_step(cs[k], cs[k + 1], p, nows[k], rs[k]);
        let sub = arrivals.subrange(k, len);
        assert(sub[0] == arrivals[k]);
        assert(sub.drop_first() =~= arrivals.subrange(k + 1, len));
    }
}

/// In-order delivery, as a communicator does it. A communicator's read head is `h` and the
/// newest reliable ordered id it received is `h - 1`: so it is when new (with `h` 0), and so it
/// is again after every window of packets delivered in full, as this law ends. The reliable
/// ordered packets `h`, `h + 1`, ..., `h + n - 1` (wrapping, at most 32), holding the messages
/// `pk[0]`, ..., `pk[n - 1]`, then arrive in any order and any number of times, each at least
/// once, and the communicator takes in each. Then its ordered messages have grown by those of
/// packet `h`, then `h + 1`, and so on, each packet's once and in their order; its read head is
/// `h + n` and its newest ordered id `h + n - 1`. Successive windows compose, so a stream of
/// any length is delivered whole and in order.
pub proof fn law_ordered_receive<S, R>(
    cs: Seq<InnerUdpCommunicator<S, R>>,
    packets: Seq<Packet<R>>,
    nows: Seq<u64>,
    rs: Seq<Option<Result<(), Error>>>,
    pk: Seq<Seq<R>>,
    arrivals: Seq<int>,
)
    requires
        ordered_arrivals(cs, packets, nows, rs, cs[0].ordered_read_packet_head, pk, arrivals),
        cs[0].reliable_ordered_received_packets.newest() == wsub(cs[0].ordered_read_packet_head, 1),
        pk.len() <= 32,
        forall|i: int| 0 <= i < arrivals.len() ==> 0 <= #[trigger] arrivals[i] < pk.len(),
        forall|j: int| 0 <= j < pk.len() ==> #[trigger] arrivals.contains(j),
    ensures
        cs.last().ordered_recv_queue@ == cs[0].ordered_recv_queue@ + pk.flatten_alt(),
        cs.last().ordered_read_packet_head == wadd(cs[0].ordered_read_packet_head, pk.len() as int),
        cs.last().reliable_ordered_received_packets.newest() == wsub(
            cs.last().ordered_read_packet_head,
            1,
        ),
{
    let h = cs[0].ordered_read_packet_head;
    lemma_sides_follow(cs, packets, nows, rs, h, pk, arrivals, 0);
    assert(arrivals.subrange(0, arrivals.len() as int) =~= arrivals);
    let s = ordered_side(cs[0]);
    assert(cs[0].wf());
    assert forall|x: u16| #[trigger] s.ring.contains_key(x) implies in_window(s.newest, x, 32) by {
        cs[0].reliable_ordered_received_packets.lemma_view_in_window(x);
    }
    law_ordered_delivery(s, pk, arrivals);
}

/// The ordered receive side of the session side `o`, as values.
pub open spec fn session_side<S, R>(o: ReliableOrdered<S, R>) -> OrderedSide<R> {
    OrderedSide {
        ring: vec_views(o.recv_buffer@),
        newest: o.recv_buffer.newest(),
        head: o.read_packet_head,
        queue: o.recv_queue@,
    }
}

/// Reading a received reliable ordered packet into a session, whatever the outcome, does to
/// its ordered receive side what [`ordered_step`] says.
#[verifier::rlimit(30)]
pub proof fn law_read_packet_ordered_step<S, R>(
    before: ReliableOrdered<S, R>,
    after: ReliableOrdered<S, R>,
    sequence_id: u16,
    messages: Vec<R>,
    r: Result<bool, Error>,
)
    requires
        before.wf(),
        after.packet_read(&before, sequence_id, messages, r),
    ensures
        session_side(after) == ordered_step(session_side(before), sequence_id, messages@),
{
    let m = before.recv_buffer@;
    let newest = before.recv_buffer.newest();
    let s = session_side(before);
    assert(s.ring.contains_key(sequence_id) == m.contains_key(sequence_id));
    if !m.contains_key(sequence_id) && !spec_too_old(newest, sequence_id) {
        lemma_insert_views(m, newest, sequence_id, messages);
        let ins2 = spec_insert(s.ring, newest, sequence_id, messages@, 32);
        let k = run_len(ins2.1, before.read_packet_head, 32);
        assert(session_side(after).ring =~= drain_run(ins2.1, before.read_packet_head, k));
    }
}

/// `os[i + 1]` is `os[i]` after reading the received packet `ids[i]` with the messages
/// `msgs[i]`, with result `rs[i]`, for each `i`, where `ids[i]` is `h + arrivals[i]` and
/// `msgs[i]` holds `pk[arrivals[i]]`; and each session side is well formed.
pub open spec fn session_arrivals<S, R>(
    os: Seq<ReliableOrdered<S, R>>,
    ids: Seq<u16>,
    msgs: Seq<Vec<R>>,
    rs: Seq<Result<bool, Error>>,
    h: u16,
    pk: Seq<Seq<R>>,
    arrivals: Seq<int>,
) -> bool {
    &&& os.len() == arrivals.len() + 1
    &&& ids.len() == arrivals.len()
    &&& msgs.len() == arrivals.len()
    &&& rs.len() == arrivals.len()
    &&& forall|i: int| 0 <= i < os.len() ==> #[trigger] os[i].wf()
    &&& forall|i: int|
        #![trigger ids[i]]
        0 <= i < arrivals.len() ==> {
            &&& ids[i] == wadd(h, arrivals[i])
            &&& msgs[i]@ == pk[arrivals[i]]
            &&& os[i + 1].packet_read(&os[i], ids[i], msgs[i], rs[i])
        }
}

/// Along such a run of session sides, the ordered receive side of the last is that of `os[k]`
/// after the arrivals from `k` on.
proof fn lemma_session_sides_follow<S, R>(
    os: Seq<ReliableOrdered<S, R>>,
    ids: Seq<u16>,
    msgs: Seq<Vec<R>>,
    rs: Seq<Result<bool, Error>>,
    h: u16,
    pk: Seq<Seq<R>>,
    arrivals: Seq<int>,
    k: int,
)
    requires
        session_arrivals(os, ids, msgs, rs, h, pk, arrivals),
        0 <= k <= arrivals.len(),
    ensures
        session_side(os[arrivals.len() as int]) == ordered_steps(
            session_side(os[k]),
            h,
            pk,
            arrivals.subrange(k, arrivals.len() as int),
        ),
    decreases arrivals.len() - k,
{
    let len = arrivals.len() as int;
    if k == len {
        assert(arrivals.subrange(k, len).len() == 0);
    } else {
        lemma_session_sides_follow(os, ids, msgs, rs, h, pk, arrivals, k + 1);
        assert(os[k].wf());
        assert(ids[k] == wadd(h, arrivals[k]));
        law_read_packet_ordered_step(os[k], os[k + 1], ids[k], msgs[k], rs[k]);
        let sub = arrivals.subrange(k, len);
        assert(sub[0] == arrivals[k]);
        assert(sub.drop_first() =~= arrivals.subrange(k + 1, len));
    }
}

/// In-order delivery, as a session does it: the counterpart of [`law_ordered_receive`] for
/// [`ReliableOrdered::read_packet`]. A session side whose read head is `h` and whose newest
/// received id is `h - 1` (as when new, and after every window delivered in full) reads the
/// packets `h`, ..., `h + n - 1` (at most 32), arriving in any order and any number of times,
/// each at least once. Then its received messages have grown by those of packet `h`, then
/// `h + 1`, and so on, each packet's once and in their order; its read head is `h + n` and its
/// newest id `h + n - 1`.
pub proof fn law_session_ordered_receive<S, R>(
    os: Seq<ReliableOrdered<S, R>>,
    ids: Seq<u16>,
    msgs: Seq<Vec<R>>,
    rs: Seq<Result<bool, Error>>,
    pk: Seq<Seq<R>>,
    arrivals: Seq<int>,
)
    requires
        session_arrivals(os, ids, msgs, rs, os[0].read_packet_head, pk, arrivals),
        os[0].recv_buffer.newest() == wsub(os[0].read_packet_head, 1),
        pk.len() <= 32,
        forall|i: int| 0 <= i < arrivals.len() ==> 0 <= #[trigger] arrivals[i] < pk.len(),
        forall|j: int| 0 <= j < pk.len() ==> #[trigger] arrivals.contains(j),
    ensures
        os.last().recv_queue@ == os[0].recv_queue@ + pk.flatten_alt(),
        os.last().read_packet_head == wadd(os[0].read_packet_head, pk.len() as int),
        os.last().recv_buffer.newest() == wsub(os.last().read_packet_head, 1),
{
    let h = os[0].read_packet_head;
    lemma_session_sides_follow(os, ids, msgs, rs, h, pk, arrivals, 0);
    assert(arrivals.subrange(0, arrivals.len() as int) =~= arrivals);
    let s = session_side(os[0]);
    assert(os[0].wf());
    assert forall|x: u16| #[trigger] s.ring.contains_key(x) implies in_window(s.newest, x, 32) by {
        os[0].recv_buffer.lemma_view_in_window(x);
    }
    law_ordered_delivery(s, pk, arrivals);
}

} // verus!
