//! Arithmetic on positions and sequence numbers that wrap around.

use vstd::arithmetic::div_mod::{
    lemma_add_mod_noop_right, lemma_fundamental_div_mod, lemma_mod_bound,
    lemma_mod_multiples_basic, lemma_mod_multiples_vanish, lemma_small_mod,
};
use vstd::arithmetic::mul::lemma_mul_is_commutative;
use vstd::arithmetic::power2::{
    lemma2_to64, lemma_pow2_adds, lemma_pow2_strictly_increases, lemma_pow2_unfold, pow2,
};
use vstd::prelude::*;

verus! {

/// `n` is a power of two: the divisors of the number of `usize` values are the
/// powers of two that a `usize` can hold.
pub open spec fn power_of_two(n: int) -> bool {
    n > 0 && (usize::MAX + 1) % n == 0
}

/// How many steps forward lead from position `from` to position `to`.
pub open spec fn ahead(from: usize, to: usize) -> int {
    if from <= to {
        to - from
    } else {
        to - from + usize::MAX + 1
    }
}

/// The position `k` steps after `p`.
pub open spec fn advance(p: usize, k: int) -> usize
    recommends
        0 <= k <= usize::MAX,
{
    if p + k <= usize::MAX {
        (p + k) as usize
    } else {
        (p + k - usize::MAX - 1) as usize
    }
}

/// The slot of a ring of `n` slots that position `p` falls on.
pub open spec fn slot_of(p: usize, n: int) -> int {
    p as int % n
}

/// How many steps after position `from` the ring comes to slot `i` first.
pub open spec fn steps_to(from: usize, i: int, n: int) -> int {
    (i - from) % n
}

/// The sequence number `k` steps after `seq`.
pub open spec fn seq_add(seq: u16, k: int) -> u16 {
    ((seq + k) % 0x1_0000) as u16
}

/// How many steps forward lead from sequence number `from` to `to`.
pub open spec fn seq_ahead(from: u16, to: u16) -> int {
    (to - from) % 0x1_0000
}

/// Steps add up.
pub proof fn lemma_seq_add_add(seq: u16, a: int, b: int)
    ensures
        seq_add(seq_add(seq, a), b) == seq_add(seq, a + b),
{
}

/// The divisors of a power of two are powers of two.
proof fn lemma_divisor_of_pow2(n: int, b: nat)
    requires
        n > 0,
        pow2(b) as int % n == 0,
    ensures
        exists|k: nat| #[trigger] pow2(k) == n,
    decreases b,
{
    let whole = pow2(b) as int;
    let q = whole / n;
    lemma_fundamental_div_mod(whole, n);
    assert(whole == n * q);
    if b == 0 {
        lemma2_to64();
        assert(n == 1) by (nonlinear_arith)
            requires
                1 == n * q,
                n > 0,
        ;
        assert(pow2(0) == n);
    } else {
        let half = pow2((b - 1) as nat) as int;
        lemma_pow2_unfold(b);
        assert(whole == 2 * half);
        if n % 2 == 0 {
            let m = n / 2;
            assert(half == m * q) by (nonlinear_arith)
                requires
                    2 * half == n * q,
                    n == 2 * m,
            ;
            lemma_mod_multiples_basic(q, m);
            lemma_mul_is_commutative(m, q);
            lemma_divisor_of_pow2(m, (b - 1) as nat);
            let k = choose|k: nat| #[trigger] pow2(k) == m;
            lemma_pow2_unfold(k + 1);
            assert(pow2(k + 1) == n);
        } else {
            let j = n / 2;
            let r = half - j * q;
            assert(q == 2 * r) by (nonlinear_arith)
                requires
                    2 * half == n * q,
                    n == 2 * j + 1,
                    r == half - j * q,
            ;
            assert(half == r * n) by (nonlinear_arith)
                requires
                    2 * half == n * q,
                    q == 2 * r,
            ;
            lemma_mod_multiples_basic(r, n);
            lemma_divisor_of_pow2(n, (b - 1) as nat);
        }
    }
}

/// [`power_of_two`] holds of the powers of two, and of nothing else.
pub proof fn law_power_of_two(n: int)
    requires
        0 < n <= usize::MAX,
    ensures
        power_of_two(n) <==> exists|k: nat| #[trigger] pow2(k) == n,
{
    lemma2_to64();
    let b: nat = if usize::MAX == 0xFFFF_FFFF {
        32
    } else {
        64
    };
    assert(pow2(b) == usize::MAX + 1);
    if power_of_two(n) {
        lemma_divisor_of_pow2(n, b);
    }
    if exists|k: nat| #[trigger] pow2(k) == n {
        let k = choose|k: nat| #[trigger] pow2(k) == n;
        if k >= b {
            if k > b {
                lemma_pow2_strictly_increases(b, k);
            }
            assert(false);
        }
        lemma_pow2_adds(k, (b - k) as nat);
        lemma_mod_multiples_basic(pow2((b - k) as nat) as int, n);
        lemma_mul_is_commutative(pow2((b - k) as nat) as int, n);
    }
}

/// Walking forward from a position falls on the slots of a ring in turn, also
/// where the position wraps around.
pub proof fn lemma_slot_of_advance(p: usize, k: int, n: int)
    requires
        power_of_two(n),
        0 <= k <= usize::MAX,
    ensures
        slot_of(advance(p, k), n) == (p + k) % n,
        0 <= slot_of(advance(p, k), n) < n,
{
    lemma_mod_bound(p + k, n);
    if p + k > usize::MAX {
        let b = (usize::MAX + 1) / n;
        lemma_fundamental_div_mod(usize::MAX + 1, n);
        assert(n * b == usize::MAX + 1);
        lemma_mod_multiples_vanish(-b, p + k, n);
        assert(n * (-b) == -(n * b)) by (nonlinear_arith);
        assert((n * (-b) + (p + k)) % n == (p + k) % n);
    }
}

/// Within one turn of the ring, a slot is met after exactly
/// [`steps_to`] steps.
pub proof fn lemma_steps_to(p: usize, k: int, i: int, n: int)
    requires
        power_of_two(n),
        0 <= k < n <= usize::MAX,
        0 <= i < n,
    ensures
        slot_of(advance(p, k), n) == i <==> steps_to(p, i, n) == k,
        0 <= steps_to(p, i, n) < n,
{
    lemma_slot_of_advance(p, k, n);
    lemma_mod_bound(i - p, n);
    let s = steps_to(p, i, n);
    lemma_add_mod_noop_right(p as int, i - p, n);
    assert((p + s) % n == (p + (i - p)) % n);
    lemma_small_mod(i as nat, n as nat);
    assert((p + s) % n == i);
    if (p + k) % n == i {
        lemma_add_mod_noop_right(-p, p + k, n);
        lemma_small_mod(k as nat, n as nat);
    }
}

/// The slot `k` steps after `p` is met `k - m` steps after the position `m`
/// steps after `p`, on the same turn of the ring or on the next.
pub proof fn lemma_steps_between(p: usize, m: int, k: int, n: int)
    requires
        power_of_two(n),
        0 <= m <= n <= usize::MAX,
        0 <= k < n,
    ensures
        steps_to(advance(p, m), slot_of(advance(p, k), n), n) == (if k < m {
            k - m + n
        } else {
            k - m
        }),
{
    let q = advance(p, m);
    let i = slot_of(advance(p, k), n);
    lemma_slot_of_advance(p, k, n);
    if k < m {
        let s = k - m + n;
        lemma_steps_to(q, s, i, n);
        lemma_slot_of_advance(q, s, n);
        lemma_slot_of_advance(p, m, n);
        // q + s falls on the slot of p + m + s, and that is p + k, one turn on
        lemma_add_mod_noop_right(s, q as int, n);
        lemma_add_mod_noop_right(s, p + m, n);
        lemma_mod_multiples_vanish(1, p + k, n);
    } else {
        lemma_steps_to(q, k - m, i, n);
        assert(advance(q, k - m) == advance(p, k));
    }
}

/// The positions from `start` up to, and not with, `end`.
pub struct WrappingRangeUsize {
    start: usize,
    len: usize,
}

impl View for WrappingRangeUsize {
    type V = Seq<usize>;

    closed spec fn view(&self) -> Seq<usize> {
        Seq::new(self.len as nat, |i: int| advance(self.start, i))
    }
}

/// The positions from `start` up to, and not with, `end`, in walking order.
pub fn wrapping_range_usize(start: usize, end: usize) -> (range: WrappingRangeUsize)
    ensures
        range@ == Seq::new(ahead(start, end) as nat, |i: int| advance(start, i)),
{
    let range = WrappingRangeUsize { start, len: end.wrapping_sub(start) };
    assert(range@ =~= Seq::new(ahead(start, end) as nat, |i: int| advance(start, i)));
    range
}

impl WrappingRangeUsize {
    /// Number of positions.
    pub fn len(&self) -> (len: usize)
        ensures
            len == self@.len(),
    {
        self.len
    }

    /// The `i`-th position.
    pub fn get(&self, i: usize) -> (p: usize)
        requires
            i < self@.len(),
        ensures
            p == self@[i as int],
    {
        self.start.wrapping_add(i)
    }
}

/// The sequence numbers from `start` up to, and not with, `end`.
pub struct WrappingRangeU16 {
    start: u16,
    len: u16,
}

impl View for WrappingRangeU16 {
    type V = Seq<u16>;

    closed spec fn view(&self) -> Seq<u16> {
        Seq::new(self.len as nat, |i: int| seq_add(self.start, i))
    }
}

/// The sequence numbers from `start` up to, and not with, `end`, in order.
pub fn wrapping_range_u16(start: u16, end: u16) -> (range: WrappingRangeU16)
    ensures
        range@ == Seq::new(seq_ahead(start, end) as nat, |i: int| seq_add(start, i)),
{
    let range = WrappingRangeU16 { start, len: end.wrapping_sub(start) };
    assert(range@ =~= Seq::new(seq_ahead(start, end) as nat, |i: int| seq_add(start, i)));
    range
}

impl WrappingRangeU16 {
    /// Number of sequence numbers.
    pub fn len(&self) -> (len: u16)
        ensures
            len == self@.len(),
    {
        self.len
    }

    /// The `i`-th sequence number.
    pub fn get(&self, i: u16) -> (seq: u16)
        requires
            i < self@.len(),
        ensures
            seq == self@[i as int],
    {
        self.start.wrapping_add(i)
    }
}

/// Whether position `val` lies from `start` up to, and not with, `end`.
pub fn wrapping_range_usize_contains(start: usize, end: usize, val: usize) -> (res: bool)
    ensures
        res == (ahead(start, val) < ahead(start, end)),
{
    val.wrapping_sub(start) < end.wrapping_sub(start)
}

} // verus!
