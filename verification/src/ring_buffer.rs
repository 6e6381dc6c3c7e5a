//! The ring buffer used to cache reliably sent and received packets.
//!
//! A [`RingBuffer`] stores up to `NUM_ITEMS` items, each under a `u16` index. Indices grow
//! by one with every push and wrap around at `u16::MAX`. Only the `NUM_ITEMS` indices ending at
//! the newest index (the "window") can hold an item; pushing or inserting past the window drops
//! the items that fall out of it.
use vstd::prelude::*;
use vstd::arithmetic::div_mod::{
    lemma_fundamental_div_mod,
    lemma_mod_multiples_vanish,
    lemma_mod_sub_multiples_vanish,
};

verus! {

/// The number of distinct `u16` indices.
pub open spec fn index_space() -> int {
    0x1_0000
}

/// The forward distance from `from` to `to`, counted in the wrapping `u16` index space.
pub open spec fn dist(to: u16, from: u16) -> int {
    if to >= from {
        to - from
    } else {
        to - from + index_space()
    }
}

/// `a.wrapping_add(b)`
pub open spec fn wadd(a: u16, b: int) -> u16 {
    ((a + b) % index_space()) as u16
}

/// `a.wrapping_sub(b)`
pub open spec fn wsub(a: u16, b: int) -> u16 {
    ((a - b) % index_space()) as u16
}

/// A capacity the ring buffer supports: a power of two that divides the `u16` index space and
/// is less than `u16::MAX`.
pub open spec fn valid_capacity(n: usize) -> bool {
    &&& 1 <= n <= 0x8000
    &&& index_space() % (n as int) == 0
}

/// A capacity for which [`RingBuffer::insert`] works: a supported one whose double still fits
/// into a `u16`, as the window arithmetic of `insert` needs.
pub open spec fn insert_capacity(n: usize) -> bool {
    &&& valid_capacity(n)
    &&& n <= 0x4000
}

/// Whether `index` lies in the window of `n` indices that ends at `newest`.
pub open spec fn in_window(newest: u16, index: u16, n: nat) -> bool {
    dist(newest, index) < n
}

/// The slot that holds the item with index `index`.
pub open spec fn slot(index: u16, n: nat) -> int {
    (index as int) % (n as int)
}

/// `m` with every index outside the window of `n` indices ending at `newest` removed.
pub open spec fn keep_window<T>(m: Map<u16, T>, newest: u16, n: nat) -> Map<u16, T> {
    m.restrict(Set::new(|i: u16| in_window(newest, i, n)))
}

/// The specification of [`wrapping_gt`]: `x` is greater than `y`, except that a `y` that lies
/// less than `max_dif` steps after `x` across the wrap-around at `u16::MAX` counts as greater.
pub open spec fn spec_wrapping_gt(x: u16, y: u16, max_dif: u16) -> bool {
    if u16::MAX - x < max_dif && y <= x && u16::MAX - x + y < max_dif {
        false
    } else if u16::MAX - y < max_dif && x <= y && u16::MAX - y + x < max_dif {
        true
    } else {
        x > y
    }
}

/// Returns `true` if `x` is greater than `y`, treating values that wrapped around `u16::MAX`
/// by less than `max_dif` as greater than values close to `u16::MAX`.
pub fn wrapping_gt(x: u16, y: u16, max_dif: u16) -> (r: bool)
    ensures
        r == spec_wrapping_gt(x, y, max_dif),
{
    if u16::MAX - x < max_dif && y <= x && u16::MAX - x + y < max_dif {
        return false;
    } else if u16::MAX - y < max_dif && x <= y && u16::MAX - y + x < max_dif {
        return true;
    }
    x > y
}

/// The indices from `start` (inclusive) to `end` (exclusive), counting up and wrapping around
/// at `u16::MAX`.
pub fn wrapping_range(start: u16, end: u16) -> (r: Vec<u16>)
    ensures
        r@.len() == dist(end, start),
        forall|k: int| 0 <= k < r@.len() ==> #[trigger] r@[k] == wadd(start, k),
{
    let len = end.wrapping_sub(start);
    let mut r: Vec<u16> = Vec::new();
    let mut k: u16 = 0;
    while k < len
        invariant
            k <= len,
            len == dist(end, start),
            r@.len() == k,
            forall|j: int| 0 <= j < r@.len() ==> #[trigger] r@[j] == wadd(start, j),
        decreases len - k,
    {
        r.push(start.wrapping_add(k));
        k = k + 1;
    }
    r
}

/// The number of indices among the `k` newest of the window ending at `newest` that hold an
/// item in `m`.
pub open spec fn count_present<T>(m: Map<u16, T>, newest: u16, k: nat) -> nat
    decreases k,
{
    if k == 0 {
        0
    } else {
        count_present(m, newest, (k - 1) as nat) + if m.contains_key(
            wsub(newest, k - 1),
        ) {
            1nat
        } else {
            0nat
        }
    }
}

/// The newest index and the items after inserting `item` under `index` into a buffer of
/// capacity `n` whose newest index is `newest` and whose items are `m`:
/// - an index inside the window just gets the item;
/// - an index less than `n` steps past the newest one becomes the newest index, and the items
///   that fall out of the window are dropped;
/// - any other index empties the buffer and becomes the newest index.
pub open spec fn spec_insert<T>(m: Map<u16, T>, newest: u16, index: u16, item: T, n: nat) -> (
    u16,
    Map<u16, T>,
) {
    if in_window(newest, index, n) {
        (newest, m.insert(index, item))
    } else if dist(index, newest) < n {
        (index, keep_window(m, index, n).insert(index, item))
    } else {
        (index, Map::<u16, T>::empty().insert(index, item))
    }
}

/// Which of its three cases `insert` takes, decided the way the buffer decides it, agrees with
/// the distance between the index and the newest index.
pub proof fn lemma_insert_cases(newest: u16, index: u16, n: usize)
    requires
        insert_capacity(n),
    ensures
        (spec_wrapping_gt(wsub(newest, n - 1), index, (2 * n) as u16) || spec_wrapping_gt(
            index,
            wadd(newest, n - 1),
            (2 * n) as u16,
        )) <==> (!in_window(newest, index, n as nat) && !(dist(index, newest) < n)),
        !in_window(newest, index, n as nat) && dist(index, newest) < n ==> !(spec_wrapping_gt(
            wadd(newest, 1),
            index,
            n as u16,
        ) && spec_wrapping_gt(index, wsub(newest, n as int), n as u16)),
        in_window(newest, index, n as nat) ==> (spec_wrapping_gt(wadd(newest, 1), index, n as u16)
            && spec_wrapping_gt(index, wsub(newest, n as int), n as u16)),
{
}

/// The items held by the slots `items` of a buffer whose newest index is `newest`: each index of
/// the window maps to the item in its slot, if there is one.
pub open spec fn items_view<T>(newest: u16, items: Seq<Option<T>>, n: nat) -> Map<u16, T> {
    Map::new(
        |i: u16| in_window(newest, i, n) && items[slot(i, n)] is Some,
        |i: u16| items[slot(i, n)]->Some_0,
    )
}

/// Putting `v` into the slot of `index`, an index of the window, stores `v` under `index` and
/// changes nothing else.
pub proof fn lemma_items_view_update<T>(newest: u16, items: Seq<Option<T>>, index: u16, v: T, n: usize)
    requires
        valid_capacity(n),
        items.len() == n,
        in_window(newest, index, n as nat),
    ensures
        items_view(newest, items.update(slot(index, n as nat), Some(v)), n as nat) == items_view(
            newest,
            items,
            n as nat,
        ).insert(index, v),
{
    let nn = n as nat;
    let s = slot(index, nn);
    let after = items_view(newest, items.update(s, Some(v)), nn);
    let expected = items_view(newest, items, nn).insert(index, v);
    assert forall|j: u16| #[trigger] after.contains_key(j) == expected.contains_key(j) by {
        if j != index && in_window(newest, j, nn) && slot(j, nn) == s {
            lemma_slot_injective(newest, index, j, n);
        }
    }
    assert forall|j: u16| #[trigger] after.contains_key(j) implies after[j] == expected[j] by {
        if j != index && slot(j, nn) == s {
            lemma_slot_injective(newest, index, j, n);
        }
    }
    assert(after =~= expected);
}

/// The position `k` of the first index, counting from `start`, among the `len` indices
/// `start`, `start + 1`, ... (wrapping) that `m` holds: every earlier one is absent.
pub open spec fn is_first_present<T>(m: Map<u16, T>, start: u16, len: int, k: int) -> bool {
    &&& 0 <= k < len
    &&& m.contains_key(wadd(start, k))
    &&& forall|j: int| 0 <= j < k ==> !m.contains_key(#[trigger] wadd(start, j))
}

/// None of the `len` indices from `start` on is held by `m`.
pub open spec fn none_present<T>(m: Map<u16, T>, start: u16, len: int) -> bool {
    forall|j: int| 0 <= j < len ==> !m.contains_key(#[trigger] wadd(start, j))
}

/// `a - b`, or 0 where `b` is larger.
pub open spec fn sat_sub(a: int, b: int) -> int {
    if a >= b {
        a - b
    } else {
        0
    }
}

/// What an iterator positioned at `pos` over a buffer with items `m`, newest index `newest` and
/// capacity `n` reports as `(lower, upper)` bounds of the number of items left. Once the
/// buffer is empty or the iterator is past the newest index, nothing is left. Otherwise
/// `unvisited` positions are left, up to the newest index (counted in wrapping `u16`
/// arithmetic): at most that many items and at most the buffer's length are left, and at least
/// the length less the window positions already passed.
pub open spec fn spec_size_hint<T>(m: Map<u16, T>, newest: u16, pos: u16, n: nat) -> (
    usize,
    Option<usize>,
) {
    let len = count_present(m, newest, n) as int;
    let unvisited = wadd(wsub(newest, pos as int), 1) as int;
    if len == 0 || spec_wrapping_gt(wsub(pos, 1), newest, n as u16) {
        (0, Some(0))
    } else {
        (
            sat_sub(len, sat_sub(n as int, unvisited)) as usize,
            Some(vstd::math::min(unvisited, len) as usize),
        )
    }
}

/// Stepping one index further from `wadd(p, k)` is the same as stepping `k + 1` from `p`.
pub proof fn lemma_wadd_step(p: u16, k: int)
    requires
        0 <= k < index_space(),
    ensures
        wadd(wadd(p, k), 1) == wadd(p, k + 1),
{
}

/// Stepping the distance from `b` to `a` starting at `b` arrives at `a`.
pub proof fn lemma_wadd_dist(a: u16, b: u16)
    ensures
        wadd(b, dist(a, b)) == a,
{
}

/// Stepping `a` and `b` indices from `h`, the first lies `a - b` after the second.
pub proof fn lemma_dist_wadd(h: u16, a: int, b: int)
    requires
        0 <= a - b < index_space(),
    ensures
        dist(wadd(h, a), wadd(h, b)) == a - b,
{
    let m = index_space();
    let x = (h + a) % m;
    let y = (h + b) % m;
    assert(x == wadd(h, a) as int);
    assert(y == wadd(h, b) as int);
    vstd::arithmetic::div_mod::lemma_fundamental_div_mod(h + a, m);
    vstd::arithmetic::div_mod::lemma_fundamental_div_mod(h + b, m);
    let qa = (h + a) / m;
    let qb = (h + b) / m;
    assert(x - y == (a - b) + (qb - qa) * m);
    if qb - qa >= 1 {
        assert((qb - qa) * m >= m) by (nonlinear_arith)
            requires
                qb - qa >= 1,
                m == 0x1_0000,
        ;
    } else if qb - qa <= -2 {
        assert((qb - qa) * m <= -2 * m) by (nonlinear_arith)
            requires
                qb - qa <= -2,
                m == 0x1_0000,
        ;
    } else if qb - qa == -1 {
        assert((qb - qa) * m == -m);
    } else {
        assert((qb - qa) * m == 0);
    }
}

/// Stepping `a` indices from `h` and then `b` more is stepping `a + b`.
pub proof fn lemma_wadd_wadd(h: u16, a: int, b: int)
    ensures
        wadd(wadd(h, a), b) == wadd(h, a + b),
{
    let m = index_space();
    let x = (h + a) % m;
    assert(wadd(h, a) as int == x);
    vstd::arithmetic::div_mod::lemma_add_mod_noop(h + a, b, m);
    vstd::arithmetic::div_mod::lemma_add_mod_noop_right(x, b, m);
    assert((x + b) % m == (h + a + b) % m);
}

/// Whatever case `insert` takes, the inserted item is afterwards stored under its index.
pub proof fn law_insert_then_get<T>(m: Map<u16, T>, newest: u16, index: u16, item: T, n: usize)
    requires
        valid_capacity(n),
    ensures
        spec_insert(m, newest, index, item, n as nat).1.contains_key(index),
        spec_insert(m, newest, index, item, n as nat).1[index] == item,
        in_window(spec_insert(m, newest, index, item, n as nat).0, index, n as nat),
{
}

/// Removing `i` from `m` lowers the count of the `k` newest indices of the window by one
/// exactly when `m` holds `i` among them.
proof fn lemma_count_remove<T>(m: Map<u16, T>, newest: u16, i: u16, k: nat)
    requires
        k <= index_space(),
    ensures
        count_present(m.remove(i), newest, k) == count_present(m, newest, k) - (if m.contains_key(
            i,
        ) && dist(newest, i) < k {
            1int
        } else {
            0int
        }),
    decreases k,
{
    if k > 0 {
        lemma_count_remove(m, newest, i, (k - 1) as nat);
        assert((wsub(newest, k - 1) == i) == (dist(newest, i) == k - 1));
    }
}

/// Counting the `k + 1` newest indices of the window ending one after `o` counts the index
/// after `o` and the `k` newest indices of the window ending at `o`.
proof fn lemma_count_shift<T>(m: Map<u16, T>, o: u16, k: nat)
    requires
        k < index_space(),
    ensures
        count_present(m, wadd(o, 1), k + 1) == count_present(m, o, k) + (if m.contains_key(
            wadd(o, 1),
        ) {
            1int
        } else {
            0int
        }),
    decreases k,
{
    let p = wadd(o, 1);
    assert(count_present(m, p, k + 1) == count_present(m, p, k) + (if m.contains_key(
        wsub(p, k as int),
    ) {
        1nat
    } else {
        0nat
    }));
    if k == 0 {
        assert(wsub(p, 0) == p);
        assert(count_present(m, p, 0) == 0);
        assert(count_present(m, o, 0) == 0);
    } else {
        lemma_count_shift(m, o, (k - 1) as nat);
        assert(wsub(p, k as int) == wsub(o, k - 1));
        assert(count_present(m, o, k) == count_present(m, o, (k - 1) as nat) + (if m.contains_key(
            wsub(o, k - 1),
        ) {
            1nat
        } else {
            0nat
        }));
    }
}

/// Maps that agree on the `k` newest indices of a window count the same there.
proof fn lemma_count_same<T>(a: Map<u16, T>, b: Map<u16, T>, newest: u16, k: nat)
    requires
        forall|j: int| 0 <= j < k ==> a.contains_key(#[trigger] wsub(newest, j)) == b.contains_key(
            wsub(newest, j),
        ),
    ensures
        count_present(a, newest, k) == count_present(b, newest, k),
    decreases k,
{
    if k > 0 {
        lemma_count_same(a, b, newest, (k - 1) as nat);
    }
}

/// The indices that `m` holds among the `rem` indices from `pos` on, in the order an iterator
/// visits them.
pub open spec fn present_from<T>(m: Map<u16, T>, pos: u16, rem: int) -> Seq<u16>
    decreases (if rem > 0 {
        rem
    } else {
        0
    }),
{
    if rem <= 0 {
        Seq::empty()
    } else {
        (if m.contains_key(pos) {
            seq![pos]
        } else {
            Seq::empty()
        }) + present_from(m, wadd(pos, 1), rem - 1)
    }
}

/// An iterator step that finds the first held index `wadd(pos, k)` hands out the first of the
/// indices still to visit, and leaves the rest for the next steps.
pub proof fn law_iteration_step<T>(m: Map<u16, T>, pos: u16, rem: int, k: int)
    requires
        rem <= index_space(),
        is_first_present(m, pos, rem, k),
    ensures
        present_from(m, pos, rem) == seq![wadd(pos, k)] + present_from(
            m,
            wadd(pos, k + 1),
            rem - k - 1,
        ),
    decreases k,
{
    if k == 0 {
        assert(wadd(pos, 0) == pos);
    } else {
        assert(!m.contains_key(wadd(pos, 0)));
        assert(wadd(pos, 0) == pos);
        let p1 = wadd(pos, 1);
        assert forall|j: int| 0 <= j < k - 1 implies !m.contains_key(#[trigger] wadd(p1, j)) by {
            assert(wadd(p1, j) == wadd(pos, j + 1));
        }
        assert(m.contains_key(wadd(p1, k - 1))) by {
            assert(wadd(p1, k - 1) == wadd(pos, k));
        }
        law_iteration_step(m, p1, rem - 1, k - 1);
        assert(wadd(p1, k - 1) == wadd(pos, k));
        assert(wadd(p1, k) == wadd(pos, k + 1));
        assert(present_from(m, pos, rem) =~= Seq::<u16>::empty() + present_from(m, p1, rem - 1));
    }
}

/// An iterator step that finds nothing has nothing left to hand out.
pub proof fn law_iteration_done<T>(m: Map<u16, T>, pos: u16, rem: int)
    requires
        none_present(m, pos, rem),
    ensures
        present_from(m, pos, rem) == Seq::<u16>::empty(),
    decreases (if rem > 0 {
        rem
    } else {
        0
    }),
{
    if rem > 0 {
        assert(wadd(pos, 0) == pos);
        let p1 = wadd(pos, 1);
        assert forall|j: int| 0 <= j < rem - 1 implies !m.contains_key(#[trigger] wadd(p1, j)) by {
            assert(wadd(p1, j) == wadd(pos, j + 1));
        }
        law_iteration_done(m, p1, rem - 1);
        assert(present_from(m, pos, rem) =~= Seq::<u16>::empty());
    }
}

/// The indices from `pos` on that `m` holds are as many as the window of `rem` indices
/// starting at `pos` holds.
proof fn lemma_present_count<T>(m: Map<u16, T>, pos: u16, rem: nat)
    requires
        1 <= rem <= index_space(),
    ensures
        present_from(m, pos, rem as int).len() == count_present(m, wadd(pos, rem - 1), rem),
    decreases rem,
{
    let last = wadd(pos, rem - 1);
    assert(count_present(m, last, rem) == count_present(m, last, (rem - 1) as nat) + (
    if m.contains_key(wsub(last, rem - 1)) {
        1nat
    } else {
        0nat
    }));
    assert(wsub(last, rem - 1) == pos);
    if rem == 1 {
        assert(count_present(m, last, 0) == 0);
        assert(present_from(m, wadd(pos, 1), 0) == Seq::<u16>::empty());
    } else {
        let p1 = wadd(pos, 1);
        lemma_present_count(m, p1, (rem - 1) as nat);
        assert(wadd(p1, rem - 2) == last);
    }
}

/// What an iteration from `pos` hands out is held by `m`, and lies ever closer to `last`,
/// the last index visited.
proof fn lemma_present_members<T>(m: Map<u16, T>, pos: u16, rem: int, last: u16)
    requires
        0 <= rem <= index_space(),
        rem > 0 ==> dist(last, pos) == rem - 1,
    ensures
        ({
            let seen = present_from(m, pos, rem);
            &&& forall|i: int| 0 <= i < seen.len() ==> m.contains_key(#[trigger] seen[i])
            &&& forall|i: int| 0 <= i < seen.len() ==> dist(last, #[trigger] seen[i]) < rem
            &&& forall|i: int, j: int|
                0 <= i < j < seen.len() ==> dist(last, #[trigger] seen[i]) > dist(
                    last,
                    #[trigger] seen[j],
                )
        }),
    decreases rem,
{
    if rem > 0 {
        let p1 = wadd(pos, 1);
        if rem > 1 {
            assert(dist(last, p1) == rem - 2);
        }
        lemma_present_members(m, p1, rem - 1, last);
        let head: Seq<u16> = if m.contains_key(pos) {
            seq![pos]
        } else {
            Seq::empty()
        };
        let tail = present_from(m, p1, rem - 1);
        assert(present_from(m, pos, rem) == head + tail);
        let seen = head + tail;
        assert forall|i: int| 0 <= i < seen.len() implies m.contains_key(#[trigger] seen[i])
            && dist(last, seen[i]) < rem by {
            if i >= head.len() {
                assert(seen[i] == tail[i - head.len()]);
            }
        }
        assert forall|i: int, j: int| 0 <= i < j < seen.len() implies dist(
            last,
            #[trigger] seen[i],
        ) > dist(last, #[trigger] seen[j]) by {
            assert(seen[j] == tail[j - head.len()]);
            if i >= head.len() {
                assert(seen[i] == tail[i - head.len()]);
            } else {
                assert(seen[i] == pos);
            }
        }
    }
}

/// An iteration from `pos` hands out the `j`-th index from `pos` if `m` holds it.
proof fn lemma_present_has<T>(m: Map<u16, T>, pos: u16, rem: int, j: int)
    requires
        0 <= j < rem <= index_space(),
        m.contains_key(wadd(pos, j)),
    ensures
        present_from(m, pos, rem).contains(wadd(pos, j)),
    decreases j,
{
    let p1 = wadd(pos, 1);
    let head: Seq<u16> = if m.contains_key(pos) {
        seq![pos]
    } else {
        Seq::empty()
    };
    let tail = present_from(m, p1, rem - 1);
    assert(present_from(m, pos, rem) == head + tail);
    if j == 0 {
        assert(wadd(pos, 0) == pos);
        assert((head + tail)[0] == pos);
    } else {
        assert(wadd(p1, j - 1) == wadd(pos, j));
        lemma_present_has(m, p1, rem - 1, j - 1);
        let k = choose|k: int| 0 <= k < tail.len() && tail[k] == wadd(pos, j);
        assert((head + tail)[head.len() + k] == wadd(pos, j));
    }
}

/// A push keeps every item among the `n - 1` newest indices and stores the pushed item under
/// the next index.
pub proof fn law_push_keeps_recent<T>(m: Map<u16, T>, newest: u16, item: T, n: usize, j: u16)
    requires
        valid_capacity(n),
        dist(newest, j) < n - 1,
    ensures
        ({
            let next = wadd(newest, 1);
            let after = keep_window(m, next, n as nat).insert(next, item);
            &&& after[next] == item
            &&& after.contains_key(j) == m.contains_key(j)
            &&& m.contains_key(j) ==> after[j] == m[j]
        }),
{
}

/// An insert never grows the window past `n` indices: every stored index lies within the
/// window that ends at the new newest index.
pub proof fn law_insert_keeps_window<T>(
    m: Map<u16, T>,
    newest: u16,
    index: u16,
    item: T,
    n: usize,
    j: u16,
)
    requires
        valid_capacity(n),
        forall|i: u16| #[trigger] m.contains_key(i) ==> in_window(newest, i, n as nat),
        spec_insert(m, newest, index, item, n as nat).1.contains_key(j),
    ensures
        in_window(spec_insert(m, newest, index, item, n as nat).0, j, n as nat),
{
}

/// Two distinct indices of one window never share a slot.
pub proof fn lemma_slot_injective(newest: u16, i: u16, j: u16, n: usize)
    requires
        valid_capacity(n),
        in_window(newest, i, n as nat),
        in_window(newest, j, n as nat),
        slot(i, n as nat) == slot(j, n as nat),
    ensures
        i == j,
{
    let nn = n as int;
    let m = index_space() / nn;
    lemma_fundamental_div_mod(index_space(), nn);
    lemma_fundamental_div_mod(i as int, nn);
    lemma_fundamental_div_mod(j as int, nn);
    let qi = (i as int) / nn;
    let qj = (j as int) / nn;
    let di = dist(newest, i);
    let dj = dist(newest, j);
    let ki: int = if newest >= i { 0 } else { 1 };
    let kj: int = if newest >= j { 0 } else { 1 };
    assert(i as int == newest - di + index_space() * ki);
    assert(j as int == newest - dj + index_space() * kj);
    assert(index_space() == nn * m);
    assert(i - j == nn * (qi - qj)) by (nonlinear_arith)
        requires
            i as int == nn * qi + (i as int) % nn,
            j as int == nn * qj + (j as int) % nn,
            (i as int) % nn == (j as int) % nn,
    ;
    let x = qi - qj - m * (ki - kj);
    assert(dj - di == nn * x) by (nonlinear_arith)
        requires
            i - j == nn * (qi - qj),
            i - j == dj - di + index_space() * (ki - kj),
            index_space() == nn * m,
            x == qi - qj - m * (ki - kj),
    ;
    assert(x == 0) by (nonlinear_arith)
        requires
            dj - di == nn * x,
            -nn < dj - di < nn,
            nn >= 1,
    ;
}

/// Stepping back `n` indices from `j` lands on the same slot.
pub proof fn lemma_slot_shift(j: u16, n: usize)
    requires
        valid_capacity(n),
    ensures
        slot(wsub(j, n as int), n as nat) == slot(j, n as nat),
{
    let nn = n as int;
    if j as int >= nn {
        assert(wsub(j, nn) as int == j - nn);
        lemma_mod_sub_multiples_vanish(j as int, nn);
    } else {
        let m = index_space() / nn;
        lemma_fundamental_div_mod(index_space(), nn);
        assert(index_space() == nn * m);
        assert(wsub(j, nn) as int == j - nn + index_space());
        assert(j - nn + index_space() == nn * (m - 1) + j) by (nonlinear_arith)
            requires
                index_space() == nn * m,
        ;
        lemma_mod_multiples_vanish(m - 1, j as int, nn);
    }
}

/// A ring buffer with a capacity of `NUM_ITEMS` items.
pub struct RingBuffer<T, const NUM_ITEMS: usize> {
    newest: u16,
    items: Vec<Option<T>>,
}

impl<T, const NUM_ITEMS: usize> View for RingBuffer<T, NUM_ITEMS> {
    /// The items present, by index.
    type V = Map<u16, T>;

    closed spec fn view(&self) -> Map<u16, T> {
        items_view(self.newest, self.items@, NUM_ITEMS as nat)
    }
}

impl<T, const NUM_ITEMS: usize> RingBuffer<T, NUM_ITEMS> {
    /// The buffer's invariant: its capacity is supported and every slot exists.
    pub closed spec fn wf(&self) -> bool {
        &&& valid_capacity(NUM_ITEMS)
        &&& self.items@.len() == NUM_ITEMS
    }

    /// The index of the newest item: the last index of the window.
    pub closed spec fn newest(&self) -> u16 {
        self.newest
    }

    /// Every present index lies in the window.
    pub proof fn lemma_view_in_window(&self, i: u16)
        requires
            self@.contains_key(i),
        ensures
            in_window(self.newest(), i, NUM_ITEMS as nat),
    {
    }

    /// Taking `index` out of a buffer lowers its length by one exactly when the buffer held an
    /// item under `index`; see [`Self::take`] and [`Self::len`].
    pub proof fn law_take_len(before: Self, after: Self, index: u16)
        requires
            before.wf(),
            after.newest() == before.newest(),
            after@ == before@.remove(index),
        ensures
            count_present(after@, after.newest(), NUM_ITEMS as nat) == count_present(
                before@,
                before.newest(),
                NUM_ITEMS as nat,
            ) - (if before@.contains_key(index) {
                1int
            } else {
                0int
            }),
    {
        lemma_count_remove(before@, before.newest(), index, NUM_ITEMS as nat);
        if before@.contains_key(index) {
            before.lemma_view_in_window(index);
        }
    }

    /// A push adds one to a buffer's length, unless the oldest index of the window held an
    /// item ([`Self::push_will_override`]): that item is dropped and the length stays; see
    /// [`Self::push`] and [`Self::len`].
    pub proof fn law_push_len(before: Self, after: Self, item: T)
        requires
            before.wf(),
            after.newest() == wadd(before.newest(), 1),
            after@ == keep_window(before@, after.newest(), NUM_ITEMS as nat).insert(
                after.newest(),
                item,
            ),
        ensures
            count_present(after@, after.newest(), NUM_ITEMS as nat) == count_present(
                before@,
                before.newest(),
                NUM_ITEMS as nat,
            ) + 1 - (if before@.contains_key(wsub(before.newest(), NUM_ITEMS - 1)) {
                1int
            } else {
                0int
            }),
    {
        let n = NUM_ITEMS as nat;
        let o = before.newest();
        lemma_count_shift(after@, o, (n - 1) as nat);
        assert forall|j: int| 0 <= j < n - 1 implies after@.contains_key(#[trigger] wsub(o, j))
            == before@.contains_key(wsub(o, j)) by {
            assert(dist(wadd(o, 1), wsub(o, j)) == j + 1);
            assert(wsub(o, j) != wadd(o, 1));
        }
        lemma_count_same(after@, before@, o, (n - 1) as nat);
    }

    /// A whole iteration from the oldest index of the window hands out each held index once,
    /// oldest first, as many as the buffer's length; see [`law_iteration_step`] and
    /// [`law_iteration_done`] for what each step hands out.
    pub proof fn law_iteration_visits_all(&self)
        requires
            self.wf(),
        ensures
            ({
                let seen = present_from(
                    self@,
                    wsub(self.newest(), NUM_ITEMS - 1),
                    NUM_ITEMS as int,
                );
                &&& seen.len() == count_present(self@, self.newest(), NUM_ITEMS as nat)
                &&& forall|i: int| 0 <= i < seen.len() ==> self@.contains_key(#[trigger] seen[i])
                &&& forall|x: u16| #[trigger] self@.contains_key(x) ==> seen.contains(x)
                &&& forall|i: int, j: int|
                    0 <= i < j < seen.len() ==> dist(self.newest(), #[trigger] seen[i]) > dist(
                        self.newest(),
                        #[trigger] seen[j],
                    )
            }),
    {
        let n = NUM_ITEMS as int;
        let start = wsub(self.newest(), n - 1);
        lemma_present_count(self@, start, NUM_ITEMS as nat);
        assert(wadd(start, n - 1) == self.newest());
        lemma_present_members(self@, start, n, self.newest());
        assert forall|x: u16| #[trigger] self@.contains_key(x) implies present_from(
            self@,
            start,
            n,
        ).contains(x) by {
            self.lemma_view_in_window(x);
            let j = n - 1 - dist(self.newest(), x);
            assert(wadd(start, j) == x);
            lemma_present_has(self@, start, n, j);
        }
    }

    /// An empty ring buffer whose newest index is `u16::MAX`, so that the first push gets
    /// index 0. `NUM_ITEMS` has to be a power of 2.
    pub fn new() -> (r: Self)
        requires
            valid_capacity(NUM_ITEMS),
        ensures
            r.wf(),
            r@ == Map::<u16, T>::empty(),
            r.newest() == u16::MAX,
    {
        let mut items: Vec<Option<T>> = Vec::new();
        let mut k: usize = 0;
        while k < NUM_ITEMS
            invariant
                k <= NUM_ITEMS,
                items@.len() == k,
                forall|j: int| 0 <= j < k ==> items@[j] is None,
            decreases NUM_ITEMS - k,
        {
            items.push(None);
            k = k + 1;
        }
        let r = RingBuffer { newest: u16::MAX, items };
        assert(r@ =~= Map::<u16, T>::empty());
        r
    }

    /// The item stored under `index`, if `index` is in the window and holds an item.
    pub fn get(&self, index: u16) -> (r: Option<&T>)
        requires
            self.wf(),
        ensures
            r == (if self@.contains_key(index) {
                Some(&self@[index])
            } else {
                None
            }),
    {
        let i = self.newest.wrapping_sub(index) as usize;
        if i < NUM_ITEMS {
            self.items[index as usize % NUM_ITEMS].as_ref()
        } else {
            None
        }
    }

    /// A mutable reference to the item stored under `index`, if `index` is in the window and
    /// holds an item. What is written through it is stored under `index`.
    pub fn get_mut(&mut self, index: u16) -> (r: Option<&mut T>)
        requires
            old(self).wf(),
        ensures
            final(self).wf(),
            final(self).newest() == old(self).newest(),
            r is Some <==> old(self)@.contains_key(index),
            r is Some ==> *r.unwrap() == old(self)@[index] && final(self)@ == old(self)@.insert(
                index,
                *final(r.unwrap()),
            ),
            r is None ==> final(self)@ == old(self)@,
    {
        let i = self.newest.wrapping_sub(index) as usize;
        if i < NUM_ITEMS {
            let s = index as usize % NUM_ITEMS;
            let slice = self.items.as_mut_slice();
            let (_, right) = slice.split_at_mut(s);
            let slot_ref = right.first_mut().unwrap();
            let r = slot_ref.as_mut();
            proof {
                if r is Some {
                    lemma_items_view_update(
                        old(self).newest,
                        old(self).items@,
                        index,
                        *final(r.unwrap()),
                        NUM_ITEMS,
                    );
                }
                assert(old(self).items@.update(s as int, old(self).items@[s as int]) =~= old(
                    self,
                ).items@);
            }
            r
        } else {
            None
        }
    }

    /// Store `item` under the index after the newest one, which becomes the newest index.
    /// The item that fell out of the window, if any, is dropped. Returns the new index.
    pub fn push(&mut self, item: T) -> (r: u16)
        requires
            old(self).wf(),
        ensures
            final(self).wf(),
            r == wadd(old(self).newest(), 1),
            final(self).newest() == r,
            final(self)@ == keep_window(old(self)@, r, NUM_ITEMS as nat).insert(r, item),
    {
        let ghost old_self = *self;
        self.newest = self.newest.wrapping_add(1);
        let i = self.newest;
        let ghost s = slot(i, NUM_ITEMS as nat);
        self.items.set(i as usize % NUM_ITEMS, Some(item));
        proof {
            let n = NUM_ITEMS as nat;
            let expected = keep_window(old_self@, i, n).insert(i, item);
            assert forall|j: u16| #[trigger] self@.contains_key(j) == expected.contains_key(j) by {
                if j != i && in_window(i, j, n) {
                    assert(in_window(old_self.newest, j, n));
                    if slot(j, n) == s {
                        lemma_slot_injective(i, i, j, NUM_ITEMS);
                    }
                }
            }
            assert forall|j: u16| #[trigger] self@.contains_key(j) implies self@[j]
                == expected[j] by {
                if j != i {
                    if slot(j, n) == s {
                        lemma_slot_injective(i, i, j, NUM_ITEMS);
                    }
                }
            }
            assert(self@ =~= expected);
        }
        i
    }

    /// Remove and return the item stored under `index`, if `index` is in the window and holds
    /// an item.
    pub fn take(&mut self, index: u16) -> (r: Option<T>)
        requires
            old(self).wf(),
        ensures
            final(self).wf(),
            final(self).newest() == old(self).newest(),
            r == (if old(self)@.contains_key(index) {
                Some(old(self)@[index])
            } else {
                None
            }),
            final(self)@ == old(self)@.remove(index),
    {
        let ghost old_self = *self;
        let i = self.newest.wrapping_sub(index) as usize;
        if i < NUM_ITEMS {
            let mut slot_value: Option<T> = None;
            let s = index as usize % NUM_ITEMS;
            self.items.set_and_swap(s, &mut slot_value);
            proof {
                let n = NUM_ITEMS as nat;
                assert forall|j: u16| #[trigger] self@.contains_key(j) == old_self@.remove(
                    index,
                ).contains_key(j) by {
                    if j != index && in_window(self.newest, j, n) && slot(j, n) == s {
                        lemma_slot_injective(self.newest, index, j, NUM_ITEMS);
                    }
                }
                assert(self@ =~= old_self@.remove(index));
            }
            slot_value
        } else {
            assert(self@ =~= old_self@.remove(index));
            None
        }
    }

    /// Store `item` under `index`. See [`spec_insert`] for how the window moves: an index
    /// inside the window only gets the item, an index shortly after it moves the window
    /// forward, and any other index empties the buffer first. The capacity has to be at most
    /// `0x4000`, so that twice it fits into a `u16`.
    pub fn insert(&mut self, index: u16, item: T)
        requires
            old(self).wf(),
            insert_capacity(NUM_ITEMS),
        ensures
            final(self).wf(),
            (final(self).newest(), final(self)@) == spec_insert(
                old(self)@,
                old(self).newest(),
                index,
                item,
                NUM_ITEMS as nat,
            ),
    {
        proof {
            lemma_insert_cases(self.newest, index, NUM_ITEMS);
        }
        let prev_oldest = self.newest.wrapping_sub(NUM_ITEMS as u16 - 1);
        if wrapping_gt(prev_oldest, index, NUM_ITEMS as u16 * 2) || wrapping_gt(
            index,
            self.newest.wrapping_add(NUM_ITEMS as u16 - 1),
            NUM_ITEMS as u16 * 2,
        ) {
            // The index is older than the oldest possible entry or at least `NUM_ITEMS`
            // after the newest one: empty the whole buffer.
            self.reset_to(index, item);
        } else if wrapping_gt(self.newest.wrapping_add(1), index, NUM_ITEMS as u16) && wrapping_gt(
            index,
            self.newest.wrapping_sub(NUM_ITEMS as u16),
            NUM_ITEMS as u16,
        ) {
            // The index is in the window: only store the item.
            self.set_in_window(index, item);
        } else {
            // The index is less than `NUM_ITEMS` after the newest one: drop the items that
            // fall out of the window, then move the window.
            self.advance_to(index, item);
        }
    }

    /// Empty the buffer and store `item` under `index`, the new newest index.
    fn reset_to(&mut self, index: u16, item: T)
        requires
            old(self).wf(),
        ensures
            final(self).wf(),
            final(self).newest() == index,
            final(self)@ == Map::<u16, T>::empty().insert(index, item),
    {
        let ghost n = NUM_ITEMS as nat;
        let mut k: usize = 0;
        while k < NUM_ITEMS
            invariant
                valid_capacity(NUM_ITEMS),
                k <= NUM_ITEMS,
                self.items@.len() == NUM_ITEMS,
                forall|j: int| 0 <= j < k ==> self.items@[j] is None,
            decreases NUM_ITEMS - k,
        {
            self.items.set(k, None);
            k = k + 1;
        }
        self.newest = index;
        self.items.set(index as usize % NUM_ITEMS, Some(item));
        proof {
            let expected = Map::<u16, T>::empty().insert(index, item);
            assert forall|j: u16| #[trigger] self@.contains_key(j) == expected.contains_key(j) by {
                if j != index && in_window(index, j, n) && slot(j, n) == slot(index, n) {
                    lemma_slot_injective(index, index, j, NUM_ITEMS);
                }
            }
            assert(self@ =~= expected);
        }
    }

    /// Store `item` under `index`, which lies in the window.
    fn set_in_window(&mut self, index: u16, item: T)
        requires
            old(self).wf(),
            in_window(old(self).newest(), index, NUM_ITEMS as nat),
        ensures
            final(self).wf(),
            final(self).newest() == old(self).newest(),
            final(self)@ == old(self)@.insert(index, item),
    {
        let ghost old_self = *self;
        let ghost n = NUM_ITEMS as nat;
        let ghost newest = self.newest;
        self.items.set(index as usize % NUM_ITEMS, Some(item));
        proof {
            let expected = old_self@.insert(index, item);
            assert forall|j: u16| #[trigger] self@.contains_key(j) == expected.contains_key(j) by {
                if j != index && in_window(newest, j, n) && slot(j, n) == slot(index, n) {
                    lemma_slot_injective(newest, index, j, NUM_ITEMS);
                }
            }
            assert forall|j: u16| #[trigger] self@.contains_key(j) implies self@[j]
                == expected[j] by {
                if j != index && slot(j, n) == slot(index, n) {
                    lemma_slot_injective(newest, index, j, NUM_ITEMS);
                }
            }
            assert(self@ =~= expected);
        }
    }

    /// Drop the items that leave the window when `index`, less than `NUM_ITEMS` steps after
    /// the newest index, becomes the newest index; then store `item` under it.
    #[verifier::rlimit(50)]
    fn advance_to(&mut self, index: u16, item: T)
        requires
            old(self).wf(),
            !in_window(old(self).newest(), index, NUM_ITEMS as nat),
            dist(index, old(self).newest()) < NUM_ITEMS,
        ensures
            final(self).wf(),
            final(self).newest() == index,
            final(self)@ == keep_window(old(self)@, index, NUM_ITEMS as nat).insert(index, item),
    {
        let ghost old_self = *self;
        let ghost n = NUM_ITEMS as nat;
        let ghost newest = self.newest;
        let range = wrapping_range(
            self.newest.wrapping_sub(NUM_ITEMS as u16 - 1),
            index.wrapping_sub(NUM_ITEMS as u16 - 1),
        );
        let ghost oldest = wsub(newest, n - 1);
        let ghost d = dist(index, newest);
        assert(range@.len() == d);
        let mut k: usize = 0;
        while k < range.len()
            invariant
                self.wf(),
                self.newest == newest,
                oldest == wsub(newest, n - 1),
                n == NUM_ITEMS,
                0 < d < n,
                range@.len() == d,
                forall|j: int| 0 <= j < range@.len() ==> #[trigger] range@[j] == wadd(oldest, j),
                k <= range@.len(),
                self@ == old_self@.remove_keys(Set::new(|j: u16| dist(j, oldest) < k)),
            decreases range@.len() - k,
        {
            self.take(range[k]);
            proof {
                assert(self@ =~= old_self@.remove_keys(
                    Set::new(|j: u16| dist(j, oldest) < k + 1),
                ));
            }
            k = k + 1;
        }
        let ghost mid = *self;
        self.newest = index;
        self.items.set(index as usize % NUM_ITEMS, Some(item));
        proof {
            let expected = keep_window(old_self@, index, n).insert(index, item);
            assert forall|j: u16| #[trigger] self@.contains_key(j) == expected.contains_key(j) by {
                if j != index && in_window(index, j, n) {
                    if slot(j, n) == slot(index, n) {
                        lemma_slot_injective(index, index, j, NUM_ITEMS);
                    }
                    if in_window(newest, j, n) {
                        assert(mid@.contains_key(j) == old_self@.contains_key(j));
                    } else {
                        let back = wsub(j, n as int);
                        lemma_slot_shift(j, NUM_ITEMS);
                        assert(dist(back, oldest) < d);
                        assert(in_window(newest, back, n));
                        assert(!mid@.contains_key(back));
                    }
                }
            }
            assert forall|j: u16| #[trigger] self@.contains_key(j) implies self@[j]
                == expected[j] by {
                if j != index {
                    if slot(j, n) == slot(index, n) {
                        lemma_slot_injective(index, index, j, NUM_ITEMS);
                    }
                    assert(self.items@[slot(j, n)] == mid.items@[slot(j, n)]);
                    if in_window(newest, j, n) {
                        assert(mid@.contains_key(j));
                        assert(mid@[j] == old_self@[j]);
                    } else {
                        let back = wsub(j, n as int);
                        lemma_slot_shift(j, NUM_ITEMS);
                        assert(dist(back, oldest) < d);
                        assert(in_window(newest, back, n));
                        assert(!mid@.contains_key(back));
                        assert(false);
                    }
                }
            }
            assert(self@ =~= expected);
        }
    }

    /// The number of items stored.
    pub fn len(&self) -> (r: usize)
        requires
            self.wf(),
        ensures
            r == count_present(self@, self.newest(), NUM_ITEMS as nat),
            r <= NUM_ITEMS,
    {
        let mut count: usize = 0;
        let mut k: usize = 0;
        while k < NUM_ITEMS
            invariant
                self.wf(),
                k <= NUM_ITEMS,
                count == count_present(self@, self.newest(), k as nat),
                count <= k,
            decreases NUM_ITEMS - k,
        {
            if self.get(self.newest.wrapping_sub(k as u16)).is_some() {
                count = count + 1;
            }
            k = k + 1;
        }
        count
    }

    /// Whether no item is stored.
    pub fn is_empty(&self) -> (r: bool)
        requires
            self.wf(),
        ensures
            r == (count_present(self@, self.newest(), NUM_ITEMS as nat) == 0),
    {
        self.len() == 0
    }

    /// The index of the first item at or after `pos` and not after the newest index.
    fn find_next(&self, pos: u16) -> (r: Option<u16>)
        requires
            self.wf(),
        ensures
            ({
                let rem = dist(wadd(self.newest(), 1), pos);
                match r {
                    Some(idx) => exists|k: int|
                        #[trigger] is_first_present(self@, pos, rem, k) && idx == wadd(pos, k),
                    None => none_present(self@, pos, rem),
                }
            }),
    {
        let range = wrapping_range(pos, self.newest.wrapping_add(1));
        let ghost rem = dist(wadd(self.newest, 1), pos);
        let mut k: usize = 0;
        while k < range.len()
            invariant
                self.wf(),
                rem == dist(wadd(self.newest(), 1), pos),
                range@.len() == rem,
                forall|j: int| 0 <= j < range@.len() ==> #[trigger] range@[j] == wadd(pos, j),
                k <= range@.len(),
                none_present(self@, pos, k as int),
            decreases range@.len() - k,
        {
            let i = range[k];
            if self.get(i).is_some() {
                assert(is_first_present(self@, pos, rem, k as int) && i == wadd(pos, k as int));
                return Some(i);
            }
            k = k + 1;
        }
        None
    }

    /// The bounds that the iterators report for the number of items left, for an iterator
    /// positioned at `pos`.
    #[verifier::rlimit(50)]
    fn size_hint_at(&self, pos: u16) -> (r: (usize, Option<usize>))
        requires
            self.wf(),
        ensures
            r == spec_size_hint(self@, self.newest(), pos, NUM_ITEMS as nat),
    {
        let len = self.len();
        if len == 0 || wrapping_gt(pos.wrapping_sub(1), self.newest, NUM_ITEMS as u16) {
            (0, Some(0))
        } else {
            let unvisited = self.newest.wrapping_sub(pos).wrapping_add(1) as usize;
            let lower = len.saturating_sub(NUM_ITEMS.saturating_sub(unvisited));
            let upper = if unvisited <= len {
                unvisited
            } else {
                len
            };
            (lower, Some(upper))
        }
    }

    /// Iterate over all existing items in chronological order (oldest first).
    pub fn iter(&self) -> (r: Iter<'_, T, NUM_ITEMS>)
        requires
            self.wf(),
        ensures
            r.ring() == *self,
            r.pos() == wsub(self.newest(), NUM_ITEMS - 1),
    {
        Iter { i: self.newest.wrapping_sub(NUM_ITEMS as u16 - 1), ring: self }
    }

    /// Iterate over all existing values in chronological order (oldest first).
    pub fn values(&self) -> (r: IterValues<'_, T, NUM_ITEMS>)
        requires
            self.wf(),
        ensures
            r.ring() == *self,
            r.pos() == wsub(self.newest(), NUM_ITEMS - 1),
    {
        IterValues { i: self.newest.wrapping_sub(NUM_ITEMS as u16 - 1), ring: self }
    }

    /// Keep the items for which `f`, given the index and the item, returns `true`, and drop
    /// the others. `f` is asked about each item once, oldest first.
    pub fn retain<F: Fn(u16, &T) -> bool>(&mut self, f: F)
        requires
            old(self).wf(),
            forall|i: u16, t: &T| #[trigger] f.requires((i, t)),
        ensures
            final(self).wf(),
            final(self).newest() == old(self).newest(),
            forall|i: u16| #[trigger]
                final(self)@.contains_key(i) ==> old(self)@.contains_key(i) && final(self)@[i]
                    == old(self)@[i] && f.ensures((i, &old(self)@[i]), true),
            forall|i: u16|
                old(self)@.contains_key(i) && !final(self)@.contains_key(i) ==> #[trigger] f.ensures(
                    (i, &old(self)@[i]),
                    false,
                ),
    {
        let start = self.newest.wrapping_sub(NUM_ITEMS as u16 - 1);
        let mut k: u16 = 0;
        while (k as usize) < NUM_ITEMS
            invariant
                self.wf(),
                self.newest() == old(self).newest(),
                start == wsub(old(self).newest(), NUM_ITEMS - 1),
                k <= NUM_ITEMS,
                forall|i: u16, t: &T| #[trigger] f.requires((i, t)),
                forall|i: u16| #[trigger]
                    self@.contains_key(i) ==> old(self)@.contains_key(i) && self@[i] == old(
                        self,
                    )@[i],
                forall|i: u16|
                    old(self)@.contains_key(i) && dist(i, start) >= k ==> #[trigger] self@.contains_key(
                        i,
                    ),
                forall|i: u16| #[trigger]
                    self@.contains_key(i) && dist(i, start) < k ==> f.ensures(
                        (i, &old(self)@[i]),
                        true,
                    ),
                forall|i: u16|
                    old(self)@.contains_key(i) && !self@.contains_key(i) ==> #[trigger] f.ensures(
                        (i, &old(self)@[i]),
                        false,
                    ),
            decreases NUM_ITEMS - k,
        {
            let idx = start.wrapping_add(k);
            assert(dist(idx, start) == k);
            let keep = match self.get(idx) {
                Some(item) => f(idx, item),
                None => true,
            };
            if !keep {
                self.take(idx);
            }
            k = k + 1;
        }
        proof {
            assert forall|i: u16| #[trigger] self@.contains_key(i) implies f.ensures(
                (i, &old(self)@[i]),
                true,
            ) by {
                old(self).lemma_view_in_window(i);
            }
        }
    }

    /// Iterate mutably over all existing items with their indices in chronological order
    /// (oldest first).
    pub fn iter_mut(&mut self) -> (r: IterMut<'_, T, NUM_ITEMS>)
        requires
            old(self).wf(),
        ensures
            r.ring() == *old(self),
            r.pos() == wsub(old(self).newest(), NUM_ITEMS - 1),
            *final(r.ring) == *final(self),
    {
        IterMut { i: self.newest.wrapping_sub(NUM_ITEMS as u16 - 1), ring: self }
    }

    /// Iterate mutably over all existing values in chronological order (oldest first).
    pub fn values_mut(&mut self) -> (r: IterValuesMut<'_, T, NUM_ITEMS>)
        requires
            old(self).wf(),
        ensures
            r.ring() == *old(self),
            r.pos() == wsub(old(self).newest(), NUM_ITEMS - 1),
            *final(r.ring) == *final(self),
    {
        IterValuesMut { i: self.newest.wrapping_sub(NUM_ITEMS as u16 - 1), ring: self }
    }

    /// Iterate over the indices of all existing items in chronological order (oldest first).
    /// The indices returned increase, but wrap around at `u16::MAX`.
    pub fn keys(&self) -> (r: IterKeys<'_, T, NUM_ITEMS>)
        requires
            self.wf(),
        ensures
            r.ring() == *self,
            r.pos() == wsub(self.newest(), NUM_ITEMS - 1),
    {
        IterKeys { i: self.newest.wrapping_sub(NUM_ITEMS as u16 - 1), ring: self }
    }

    /// Whether pushing now would drop an item: the oldest index of the window holds one.
    pub fn push_will_override(&self) -> (r: bool)
        requires
            self.wf(),
        ensures
            r == self@.contains_key(wsub(self.newest(), NUM_ITEMS - 1)),
    {
        proof {
            lemma_slot_shift(wadd(self.newest, 1), NUM_ITEMS);
            assert(wsub(wadd(self.newest, 1), NUM_ITEMS as int) == wsub(
                self.newest,
                NUM_ITEMS - 1,
            ));
        }
        let i = self.newest.wrapping_add(1);
        self.items[i as usize % NUM_ITEMS].is_some()
    }

    /// The index of the newest item.
    pub fn get_newest_index(&self) -> (r: u16)
        ensures
            r == self.newest(),
    {
        self.newest
    }

    /// The index the next push will use.
    pub fn get_next_index(&self) -> (r: u16)
        ensures
            r == wadd(self.newest(), 1),
    {
        self.newest.wrapping_add(1)
    }
}

/// An iterator over the `(index, item)` pairs of a [`RingBuffer`], oldest first.
pub struct Iter<'a, T, const NUM_ITEMS: usize> {
    i: u16,
    ring: &'a RingBuffer<T, NUM_ITEMS>,
}

/// An iterator over the items of a [`RingBuffer`], oldest first.
pub struct IterValues<'a, T, const NUM_ITEMS: usize> {
    i: u16,
    ring: &'a RingBuffer<T, NUM_ITEMS>,
}

/// An iterator over the items of a [`RingBuffer`], oldest first, that hands each item out
/// mutably until it is advanced.
pub struct IterValuesMut<'a, T, const NUM_ITEMS: usize> {
    /// The next index to visit.
    pub i: u16,
    /// The buffer iterated over.
    pub ring: &'a mut RingBuffer<T, NUM_ITEMS>,
}

impl<'a, T, const NUM_ITEMS: usize> IterValuesMut<'a, T, NUM_ITEMS> {
    /// The buffer iterated over, as it is now.
    pub closed spec fn ring(&self) -> RingBuffer<T, NUM_ITEMS> {
        *self.ring
    }

    /// The next index to visit.
    pub closed spec fn pos(&self) -> u16 {
        self.i
    }

    /// The next item, oldest first. What is written through it is stored in the buffer.
    pub fn next(&mut self) -> (r: Option<&mut T>)
        requires
            old(self).ring().wf(),
        ensures
            final(self).ring().wf(),
            final(self).ring().newest() == old(self).ring().newest(),
            *final(final(self).ring) == *final(old(self).ring),
            ({
                let m = old(self).ring()@;
                let pos = old(self).pos();
                let rem = remaining(old(self).ring().newest(), pos);
                match r {
                    Some(item) => exists|k: int|
                        #[trigger] is_first_present(m, pos, rem, k) && *item == m[wadd(pos, k)]
                            && final(self).pos() == wadd(pos, k + 1)
                            && final(self).ring()@ == m.insert(wadd(pos, k), *final(item)),
                    None => none_present(m, pos, rem) && final(self).pos() == wadd(pos, rem)
                        && final(self).ring()@ == m,
                }
            }),
    {
        match self.ring.find_next(self.i) {
            Some(idx) => {
                proof {
                    let k = choose|k: int|
                        is_first_present(
                            self.ring@,
                            self.i,
                            remaining(self.ring.newest, self.i),
                            k,
                        ) && idx == wadd(self.i, k);
                    lemma_wadd_step(self.i, k);
                    assert(is_first_present(
                        old(self).ring()@,
                        old(self).pos(),
                        remaining(old(self).ring().newest(), old(self).pos()),
                        k,
                    ));
                }
                self.i = idx.wrapping_add(1);
                self.ring.get_mut(idx)
            },
            None => {
                proof {
                    lemma_wadd_dist(wadd(self.ring.newest, 1), self.i);
                }
                self.i = self.ring.newest.wrapping_add(1);
                None
            },
        }
    }

    /// Lower and upper bounds of the number of items left.
    pub fn size_hint(&self) -> (r: (usize, Option<usize>))
        requires
            self.ring().wf(),
        ensures
            r == spec_size_hint(self.ring()@, self.ring().newest(), self.pos(), NUM_ITEMS as nat),
    {
        self.ring.size_hint_at(self.i)
    }
}

/// An iterator over the items of a [`RingBuffer`] with their indices, oldest first, that
/// hands each item out mutably until it is advanced.
pub struct IterMut<'a, T, const NUM_ITEMS: usize> {
    /// The next index to visit.
    pub i: u16,
    /// The buffer iterated over.
    pub ring: &'a mut RingBuffer<T, NUM_ITEMS>,
}

impl<'a, T, const NUM_ITEMS: usize> IterMut<'a, T, NUM_ITEMS> {
    /// The buffer iterated over, as it is now.
    pub closed spec fn ring(&self) -> RingBuffer<T, NUM_ITEMS> {
        *self.ring
    }

    /// The next index to visit.
    pub closed spec fn pos(&self) -> u16 {
        self.i
    }

    /// The next item with its index, oldest first. What is written through it is stored in
    /// the buffer.
    pub fn next(&mut self) -> (r: Option<(u16, &mut T)>)
        requires
            old(self).ring().wf(),
        ensures
            final(self).ring().wf(),
            final(self).ring().newest() == old(self).ring().newest(),
            *final(final(self).ring) == *final(old(self).ring),
            ({
                let m = old(self).ring()@;
                let pos = old(self).pos();
                let rem = remaining(old(self).ring().newest(), pos);
                match r {
                    Some((idx, item)) => exists|k: int|
                        #[trigger] is_first_present(m, pos, rem, k) && idx == wadd(pos, k)
                            && *item == m[idx] && final(self).pos() == wadd(pos, k + 1)
                            && final(self).ring()@ == m.insert(idx, *final(item)),
                    None => none_present(m, pos, rem) && final(self).pos() == wadd(pos, rem)
                        && final(self).ring()@ == m,
                }
            }),
    {
        match self.ring.find_next(self.i) {
            Some(idx) => {
                proof {
                    let k = choose|k: int|
                        is_first_present(
                            self.ring@,
                            self.i,
                            remaining(self.ring.newest, self.i),
                            k,
                        ) && idx == wadd(self.i, k);
                    lemma_wadd_step(self.i, k);
                    assert(is_first_present(
                        old(self).ring()@,
                        old(self).pos(),
                        remaining(old(self).ring().newest(), old(self).pos()),
                        k,
                    ));
                }
                self.i = idx.wrapping_add(1);
                match self.ring.get_mut(idx) {
                    Some(item) => Some((idx, item)),
                    None => None,
                }
            },
            None => {
                proof {
                    lemma_wadd_dist(wadd(self.ring.newest, 1), self.i);
                }
                self.i = self.ring.newest.wrapping_add(1);
                None
            },
        }
    }

    /// Lower and upper bounds of the number of items left.
    pub fn size_hint(&self) -> (r: (usize, Option<usize>))
        requires
            self.ring().wf(),
        ensures
            r == spec_size_hint(self.ring()@, self.ring().newest(), self.pos(), NUM_ITEMS as nat),
    {
        self.ring.size_hint_at(self.i)
    }
}

/// An iterator over the indices of the items of a [`RingBuffer`], oldest first.
pub struct IterKeys<'a, T, const NUM_ITEMS: usize> {
    i: u16,
    ring: &'a RingBuffer<T, NUM_ITEMS>,
}

/// The number of positions an iterator at `pos` still visits: up to and including the newest
/// index.
pub open spec fn remaining(newest: u16, pos: u16) -> int {
    dist(wadd(newest, 1), pos)
}

impl<'a, T, const NUM_ITEMS: usize> Iter<'a, T, NUM_ITEMS> {
    /// The buffer iterated over.
    pub closed spec fn ring(&self) -> RingBuffer<T, NUM_ITEMS> {
        *self.ring
    }

    /// The next index to visit.
    pub closed spec fn pos(&self) -> u16 {
        self.i
    }

    /// The next item, oldest first, with its index.
    pub fn next(&mut self) -> (r: Option<(u16, &'a T)>)
        requires
            old(self).ring().wf(),
        ensures
            final(self).ring() == old(self).ring(),
            ({
                let m = old(self).ring()@;
                let pos = old(self).pos();
                let rem = remaining(old(self).ring().newest(), pos);
                match r {
                    Some((idx, item)) => exists|k: int|
                        #[trigger] is_first_present(m, pos, rem, k) && idx == wadd(pos, k)
                            && *item == m[idx] && final(self).pos() == wadd(pos, k + 1),
                    None => none_present(m, pos, rem) && final(self).pos() == wadd(pos, rem),
                }
            }),
    {
        match self.ring.find_next(self.i) {
            Some(idx) => {
                proof {
                    let k = choose|k: int|
                        is_first_present(
                            self.ring@,
                            self.i,
                            remaining(self.ring.newest, self.i),
                            k,
                        ) && idx == wadd(self.i, k);
                    lemma_wadd_step(self.i, k);
                    assert(is_first_present(
                        self.ring@,
                        self.i,
                        remaining(self.ring.newest, self.i),
                        k,
                    ));
                }
                let ghost k = choose|k: int|
                    is_first_present(
                        self.ring@,
                        self.i,
                        remaining(self.ring.newest, self.i),
                        k,
                    ) && idx == wadd(self.i, k);
                let ghost pos = self.i;
                self.i = idx.wrapping_add(1);
                let item = self.ring.get(idx).unwrap();
                assert(self.i == wadd(pos, k + 1));
                assert(is_first_present(self.ring@, pos, remaining(self.ring.newest, pos), k));
                assert(*item == self.ring@[idx]);
                assert(old(self).ring()@ == self.ring@);
                assert(old(self).pos() == pos);
                assert(is_first_present(old(self).ring()@, old(self).pos(), remaining(old(self).ring().newest(), old(self).pos()), k));
                Some((idx, item))
            },
            None => {
                proof {
                    lemma_wadd_dist(wadd(self.ring.newest, 1), self.i);
                }
                let ghost pos = self.i;
                self.i = self.ring.newest.wrapping_add(1);
                assert(self.i == wadd(pos, remaining(self.ring.newest, pos)));
                assert(none_present(self.ring@, pos, remaining(self.ring.newest, pos)));
                None
            },
        }
    }

    /// Lower and upper bounds of the number of items left.
    pub fn size_hint(&self) -> (r: (usize, Option<usize>))
        requires
            self.ring().wf(),
        ensures
            r == spec_size_hint(self.ring()@, self.ring().newest(), self.pos(), NUM_ITEMS as nat),
    {
        self.ring.size_hint_at(self.i)
    }
}

impl<'a, T, const NUM_ITEMS: usize> IterValues<'a, T, NUM_ITEMS> {
    /// The buffer iterated over.
    pub closed spec fn ring(&self) -> RingBuffer<T, NUM_ITEMS> {
        *self.ring
    }

    /// The next index to visit.
    pub closed spec fn pos(&self) -> u16 {
        self.i
    }

    /// The next item, oldest first.
    pub fn next(&mut self) -> (r: Option<&'a T>)
        requires
            old(self).ring().wf(),
        ensures
            final(self).ring() == old(self).ring(),
            ({
                let m = old(self).ring()@;
                let pos = old(self).pos();
                let rem = remaining(old(self).ring().newest(), pos);
                match r {
                    Some(item) => exists|k: int|
                        #[trigger] is_first_present(m, pos, rem, k) && *item == m[wadd(pos, k)]
                            && final(self).pos() == wadd(pos, k + 1),
                    None => none_present(m, pos, rem) && final(self).pos() == wadd(pos, rem),
                }
            }),
    {
        match self.ring.find_next(self.i) {
            Some(idx) => {
                proof {
                    let k = choose|k: int|
                        is_first_present(
                            self.ring@,
                            self.i,
                            remaining(self.ring.newest, self.i),
                            k,
                        ) && idx == wadd(self.i, k);
                    lemma_wadd_step(self.i, k);
                    assert(is_first_present(
                        old(self).ring()@,
                        old(self).pos(),
                        remaining(old(self).ring().newest(), old(self).pos()),
                        k,
                    ));
                }
                self.i = idx.wrapping_add(1);
                self.ring.get(idx)
            },
            None => {
                proof {
                    lemma_wadd_dist(wadd(self.ring.newest, 1), self.i);
                }
                self.i = self.ring.newest.wrapping_add(1);
                None
            },
        }
    }

    /// Lower and upper bounds of the number of items left.
    pub fn size_hint(&self) -> (r: (usize, Option<usize>))
        requires
            self.ring().wf(),
        ensures
            r == spec_size_hint(self.ring()@, self.ring().newest(), self.pos(), NUM_ITEMS as nat),
    {
        self.ring.size_hint_at(self.i)
    }
}

impl<'a, T, const NUM_ITEMS: usize> IterKeys<'a, T, NUM_ITEMS> {
    /// The buffer iterated over.
    pub closed spec fn ring(&self) -> RingBuffer<T, NUM_ITEMS> {
        *self.ring
    }

    /// The next index to visit.
    pub closed spec fn pos(&self) -> u16 {
        self.i
    }

    /// The next index that holds an item, oldest first.
    pub fn next(&mut self) -> (r: Option<u16>)
        requires
            old(self).ring().wf(),
        ensures
            final(self).ring() == old(self).ring(),
            ({
                let m = old(self).ring()@;
                let pos = old(self).pos();
                let rem = remaining(old(self).ring().newest(), pos);
                match r {
                    Some(idx) => exists|k: int|
                        #[trigger] is_first_present(m, pos, rem, k) && idx == wadd(pos, k)
                            && final(self).pos() == wadd(pos, k + 1),
                    None => none_present(m, pos, rem) && final(self).pos() == wadd(pos, rem),
                }
            }),
    {
        match self.ring.find_next(self.i) {
            Some(idx) => {
                proof {
                    let k = choose|k: int|
                        is_first_present(
                            self.ring@,
                            self.i,
                            remaining(self.ring.newest, self.i),
                            k,
                        ) && idx == wadd(self.i, k);
                    lemma_wadd_step(self.i, k);
                    assert(is_first_present(
                        old(self).ring()@,
                        old(self).pos(),
                        remaining(old(self).ring().newest(), old(self).pos()),
                        k,
                    ));
                }
                self.i = idx.wrapping_add(1);
                Some(idx)
            },
            None => {
                proof {
                    lemma_wadd_dist(wadd(self.ring.newest, 1), self.i);
                }
                self.i = self.ring.newest.wrapping_add(1);
                None
            },
        }
    }

    /// Lower and upper bounds of the number of items left.
    pub fn size_hint(&self) -> (r: (usize, Option<usize>))
        requires
            self.ring().wf(),
        ensures
            r == spec_size_hint(self.ring()@, self.ring().newest(), self.pos(), NUM_ITEMS as nat),
    {
        self.ring.size_hint_at(self.i)
    }
}

} // verus!
