//! The arithmetic of the queue's counters: positions on a ring of 2^31
//! places, slots of a buffer whose size divides that ring, and the turn that
//! tells one trip round the buffer from the next.

use vstd::prelude::*;
use vstd::arithmetic::div_mod::{
    lemma_fundamental_div_mod, lemma_fundamental_div_mod_converse, lemma_mod_bound,
    lemma_mod_mod,
};
use vstd::arithmetic::power2::{
    lemma2_to64, lemma_pow2_adds, lemma_pow2_pos, lemma_pow2_strictly_increases,
    lemma_pow2_unfold, pow2,
};

verus! {

/// The number of places that a counter walks through before it starts again:
/// a counter's position is held in its low 31 bits.
pub open spec fn period() -> int {
    0x8000_0000
}

/// The place on the ring that the counter value `x` stands for.
#[verifier::opaque]
pub open spec fn position(x: int) -> int {
    x % period()
}

/// How far the counter `a` is ahead of the counter `b`, counted round the ring.
#[verifier::opaque]
pub open spec fn distance(a: int, b: int) -> int {
    (position(a) - position(b)) % period()
}

/// The number of slots of a buffer whose capacity exponent is `l2len`.
pub open spec fn capacity(l2len: usize) -> int {
    pow2(l2len as nat) as int
}

/// A capacity that the 31-bit counters can serve: it divides the ring into an
/// even number of trips round the buffer, so that the turn alternates for ever.
pub open spec fn valid_capacity(cap: int) -> bool {
    &&& 0 < cap
    &&& period() % cap == 0
    &&& (period() / cap) % 2 == 0
}

/// The slot of the buffer that the counter value `k` falls on.
#[verifier::opaque]
pub open spec fn slot_of(cap: int, k: int) -> int {
    position(k) % cap
}

/// The turn of the counter value `k`: 0 on even trips round the buffer, 1 on
/// odd ones.
#[verifier::opaque]
pub open spec fn turn_of(cap: int, k: int) -> int {
    (k / cap) % 2
}

/// The turn bit of a control word: its highest bit.
pub open spec fn turn_bit(cmd: u32) -> int {
    cmd as int / period()
}

/// The control word that the producer of position `k` stamps on its slot: the
/// position, and the turn bit set on even trips.
pub open spec fn stamp(cap: int, k: int) -> int {
    position(k) + if turn_of(cap, k) == 0 { period() } else { 0 }
}

/// Whether the consumer at position `t` accepts a slot whose control word is
/// `cmd`: the turn bit is clear exactly on odd trips.
pub open spec fn ready(cap: int, t: int, cmd: u32) -> bool {
    (turn_bit(cmd) == 0) == (turn_of(cap, t) == 1)
}

/// Whether the consumer's waiting flag, bit 31, is set in a tail word.
pub open spec fn waiting_bit(tail: u64) -> bool {
    (tail as int / period()) % 2 == 1
}

/// A tail word with the consumer's waiting flag set or cleared, and every
/// other bit as it was.
pub open spec fn with_waiting_bit(tail: u64, waiting: bool) -> u64 {
    if waiting == waiting_bit(tail) {
        tail
    } else if waiting {
        (tail + period()) as u64
    } else {
        (tail - period()) as u64
    }
}

/// Every capacity exponent up to 30 gives a valid capacity.
pub proof fn lemma_capacity_valid(l2len: usize)
    requires
        l2len <= 30,
    ensures
        valid_capacity(capacity(l2len)),
        capacity(l2len) <= 0x4000_0000,
{
    let l = l2len as nat;
    let rest = (31 - l) as nat;
    lemma_pow2_pos(l);
    lemma_pow2_adds(l, rest);
    lemma_pow2_unfold(rest);
    lemma_pow2_pos((rest - 1) as nat);
    lemma2_to64();
    let c = pow2(l) as int;
    let half = pow2((rest - 1) as nat) as int;
    assert(pow2(31) == 0x8000_0000);
    assert(c * (2 * half) == period());
    assert(period() % c == 0 && period() / c == 2 * half) by (nonlinear_arith)
        requires
            c > 0,
            c * (2 * half) == period(),
    ;
    if l < 30 {
        lemma_pow2_strictly_increases(l, 30);
    }
    assert(pow2(30) == 0x4000_0000);
}

/// The slot of a counter value is its remainder by the capacity: the ring's
/// length is a multiple of the capacity.
pub proof fn lemma_slot_is_remainder(cap: int, k: int)
    requires
        valid_capacity(cap),
    ensures
        slot_of(cap, k) == k % cap,
        0 <= slot_of(cap, k) < cap,
{
    reveal(slot_of);
    reveal(position);
    let q = period() / cap;
    lemma_fundamental_div_mod(period(), cap);
    assert(q > 0) by (nonlinear_arith)
        requires
            cap * q == period(),
            cap > 0,
    ;
    lemma_mod_mod(k, cap, q);
    lemma_mod_bound(k, cap);
}

/// The turn of a counter value depends on its position alone: the ring holds
/// an even number of trips round the buffer.
pub proof fn lemma_turn_of_position(cap: int, k: int)
    requires
        valid_capacity(cap),
    ensures
        turn_of(cap, position(k)) == turn_of(cap, k),
        0 <= turn_of(cap, k) <= 1,
{
    reveal(turn_of);
    reveal(position);
    let m = period();
    let q = m / cap;
    let c = k / m;
    let p = k % m;
    let a = p / cap;
    let r = p % cap;
    lemma_fundamental_div_mod(m, cap);
    lemma_fundamental_div_mod(k, m);
    lemma_fundamental_div_mod(p, cap);
    lemma_mod_bound(p, cap);
    lemma_fundamental_div_mod(q, 2);
    let half = q / 2;
    assert(k == (2 * half * c + a) * cap + r) by (nonlinear_arith)
        requires
            k == m * c + p,
            m == cap * q,
            q == 2 * half,
            p == cap * a + r,
    ;
    lemma_fundamental_div_mod_converse(k, cap, 2 * half * c + a, r);
    assert((2 * (half * c) + a) % 2 == a % 2);
    assert(2 * half * c == 2 * (half * c)) by (nonlinear_arith);
}

/// One trip round the buffer further on, a counter value falls on the same
/// slot and has the other turn.
pub proof fn lemma_next_trip(cap: int, k: int)
    requires
        valid_capacity(cap),
    ensures
        slot_of(cap, k + cap) == slot_of(cap, k),
        turn_of(cap, k + cap) == 1 - turn_of(cap, k),
{
    reveal(turn_of);
    lemma_slot_is_remainder(cap, k);
    lemma_slot_is_remainder(cap, k + cap);
    let a = k / cap;
    let r = k % cap;
    lemma_fundamental_div_mod(k, cap);
    lemma_mod_bound(k, cap);
    assert(k + cap == (a + 1) * cap + r) by (nonlinear_arith)
        requires
            k == cap * a + r,
    ;
    lemma_fundamental_div_mod_converse(k + cap, cap, a + 1, r);
}

/// Within one trip round the buffer, different offsets from a counter value
/// fall on different slots.
pub proof fn lemma_slots_distinct(cap: int, t: int, i: int, j: int)
    requires
        valid_capacity(cap),
        0 <= i < cap,
        0 <= j < cap,
        i != j,
    ensures
        slot_of(cap, t + i) != slot_of(cap, t + j),
{
    lemma_slot_is_remainder(cap, t + i);
    lemma_slot_is_remainder(cap, t + j);
    let a = (t + i) / cap;
    let b = (t + j) / cap;
    lemma_fundamental_div_mod(t + i, cap);
    lemma_fundamental_div_mod(t + j, cap);
    if (t + i) % cap == (t + j) % cap {
        assert(i - j == cap * (a - b)) by (nonlinear_arith)
            requires
                t + i == cap * a + (t + i) % cap,
                t + j == cap * b + (t + j) % cap,
                (t + i) % cap == (t + j) % cap,
        ;
        assert(false) by (nonlinear_arith)
            requires
                i - j == cap * (a - b),
                -cap < i - j < cap,
                i != j,
                cap > 0,
        ;
    }
}

/// The stamp of a counter value carries the turn bit that the consumer at
/// that position accepts.
pub proof fn lemma_stamp_is_ready(cap: int, k: int)
    requires
        valid_capacity(cap),
    ensures
        0 <= stamp(cap, k) <= u32::MAX,
        ready(cap, position(k), stamp(cap, k) as u32),
        turn_bit(stamp(cap, k) as u32) == 1 - turn_of(cap, k),
        stamp(cap, position(k)) == stamp(cap, k),
{
    lemma_turn_of_position(cap, k);
    lemma_position_bounds(k);
}

/// One trip round the buffer further on, the consumer accepts a control
/// word exactly if it did not accept it before.
pub proof fn lemma_ready_next_trip(cap: int, t: int, cmd: u32)
    requires
        valid_capacity(cap),
    ensures
        ready(cap, position(t + cap), cmd) == !ready(cap, position(t), cmd),
        slot_of(cap, t + cap) == slot_of(cap, t),
{
    lemma_next_trip(cap, t);
    lemma_turn_of_position(cap, t);
    lemma_turn_of_position(cap, t + cap);
}

/// The position of a counter value that is `q` times round the ring and
/// `r` places further.
proof fn lemma_position_is(x: int, q: int, r: int)
    requires
        x == q * period() + r,
        0 <= r < period(),
    ensures
        position(x) == r,
{
    reveal(position);
    lemma_fundamental_div_mod_converse(x, period(), q, r);
}

/// A counter value is its position and some times round the ring.
proof fn lemma_position_splits(x: int) -> (q: int)
    ensures
        x == q * period() + position(x),
        0 <= position(x) < period(),
{
    reveal(position);
    lemma_fundamental_div_mod(x, period());
    x / period()
}

/// A position lies on the ring, and a counter value on the ring is its own
/// position.
pub proof fn lemma_position_bounds(x: int)
    ensures
        0 <= position(x) < period(),
        0 <= x < period() ==> position(x) == x,
        position(position(x)) == position(x),
{
    let q = lemma_position_splits(x);
    if 0 <= x < period() {
        lemma_position_is(x, 0, x);
    }
    lemma_position_is(position(x), 0, position(x));
}

/// The position after a position: one further, and from the last place of
/// the ring back to the first.
pub proof fn lemma_position_step(x: int)
    ensures
        position(x + 1) == if position(x) + 1 < period() {
            position(x) + 1
        } else {
            0
        },
{
    let q = lemma_position_splits(x);
    if position(x) + 1 < period() {
        lemma_position_is(x + 1, q, position(x) + 1);
    } else {
        lemma_position_is(x + 1, q + 1, 0);
    }
}

/// A counter that wraps at the width of its word keeps its position: the
/// width is a multiple of the ring's length.
pub proof fn lemma_wrapping_steps(h: u32, b: u64)
    ensures
        position(u32::wrapping_add(h, 1) as int) == position(h + 1),
        position(u64::wrapping_add(b, 1) as int) == position(b + 1),
{
    let qh = lemma_position_splits(h + 1);
    if h + 1 > u32::MAX {
        lemma_position_is(h + 1 - 0x1_0000_0000, qh - 2, position(h + 1));
    }
    let qb = lemma_position_splits(b + 1);
    if b + 1 > u64::MAX {
        lemma_position_is(b + 1 - 0x1_0000_0000_0000_0000, qb - 0x2_0000_0000, position(b + 1));
    }
}

/// Counter values with the same position fall on the same slot and have the
/// same turn.
pub proof fn lemma_same_position(cap: int, a: int, b: int)
    requires
        valid_capacity(cap),
        position(a) == position(b),
    ensures
        slot_of(cap, a) == slot_of(cap, b),
        turn_of(cap, position(a)) == turn_of(cap, position(b)),
        stamp(cap, a) == stamp(cap, b),
{
    reveal(slot_of);
    lemma_turn_of_position(cap, a);
    lemma_turn_of_position(cap, b);
}

/// The positions of the first trip round the buffer have turn 0.
pub proof fn lemma_first_trip(cap: int, k: int)
    requires
        0 <= k < cap,
    ensures
        turn_of(cap, k) == 0,
        0 <= k < period() ==> position(k) == k,
{
    reveal(turn_of);
    reveal(position);
    assert(k / cap == 0) by (nonlinear_arith)
        requires
            0 <= k < cap,
    ;
}

/// The consumer's waiting flag lies above the position: to set or clear it
/// moves the tail nowhere.
pub proof fn lemma_waiting_bit_keeps_position(tail: u64, waiting: bool)
    ensures
        position(with_waiting_bit(tail, waiting) as int) == position(tail as int),
        waiting_bit(with_waiting_bit(tail, waiting)) == waiting,
        !waiting_bit(position(tail as int) as u64),
{
    let m = period();
    let t = tail as int;
    let q = lemma_position_splits(t);
    let r = position(t);
    lemma_fundamental_div_mod_converse(t, m, q, r);
    lemma_fundamental_div_mod_converse(r, m, 0, r);
    if waiting != waiting_bit(tail) {
        if waiting {
            lemma_fundamental_div_mod_converse(t + m, m, q + 1, r);
            lemma_position_is(t + m, q + 1, r);
        } else {
            lemma_fundamental_div_mod_converse(t - m, m, q - 1, r);
            lemma_position_is(t - m, q - 1, r);
        }
    }
}

/// Positions add up round the ring.
pub proof fn lemma_position_adds(t: int, i: int)
    ensures
        position(position(t) + i) == position(t + i),
{
    let q = lemma_position_splits(t);
    let q2 = lemma_position_splits(position(t) + i);
    lemma_position_is(t + i, q + q2, position(position(t) + i));
}

/// The distance from `b` to `a` is the difference of their positions, taken
/// round the ring.
pub proof fn lemma_distance_is(a: int, b: int)
    ensures
        distance(a, b) == if position(a) >= position(b) {
            position(a) - position(b)
        } else {
            position(a) - position(b) + period()
        },
        0 <= distance(a, b) < period(),
        distance(a, b) == 0 <==> position(a) == position(b),
{
    reveal(distance);
    lemma_position_bounds(a);
    lemma_position_bounds(b);
    let d = position(a) - position(b);
    if d >= 0 {
        lemma_fundamental_div_mod_converse(d, period(), 0, d);
    } else {
        lemma_fundamental_div_mod_converse(d, period(), -1, d + period());
    }
}

/// What a step of either counter does to the distance between them, and
/// where the distance leads.
pub proof fn lemma_distance_steps(a: int, b: int)
    ensures
        distance(a, b) < period() - 1 ==> distance(a + 1, b) == distance(a, b) + 1,
        distance(a, b) > 0 ==> distance(a, b + 1) == distance(a, b) - 1,
        0 <= distance(a, b) < period(),
        position(a) == position(b + distance(a, b)),
        distance(a, b) == 0 <==> position(a) == position(b),
{
    lemma_distance_is(a, b);
    lemma_distance_is(a + 1, b);
    lemma_distance_is(a, b + 1);
    lemma_position_step(a);
    lemma_position_step(b);
    lemma_position_bounds(a);
    lemma_position_bounds(b);
    let qb = lemma_position_splits(b);
    if position(a) >= position(b) {
        lemma_position_is(b + distance(a, b), qb, position(a));
    } else {
        lemma_position_is(b + distance(a, b), qb + 1, position(a));
    }
}

/// The distance between two counters depends on their positions alone.
pub proof fn lemma_distance_by_position(a: int, a2: int, b: int, b2: int)
    requires
        position(a) == position(a2),
        position(b) == position(b2),
    ensures
        distance(a, b) == distance(a2, b2),
{
    reveal(distance);
}

} // verus!
