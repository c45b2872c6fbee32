//! Seat-rotation algorithms: pure functions mapping the number of picks made
//! so far and the number of seats to the seat that picks next.

use vstd::arithmetic::div_mod::*;
use vstd::prelude::*;

verus! {

/// The two supported turn-order algorithms.
pub enum DraftType {
    /// The pool passes down the table and back again, the seat at each end
    /// picking twice in a row at every reversal.
    Snake,
    /// The pool passes around the table in a fixed circle.
    Linear,
}

/// Seat that makes pick number `k` (counting from zero) in a linear draft
/// with `n` seats: picks simply go around the table.
pub open spec fn linear_seat_of_pick(k: nat, n: nat) -> nat
    recommends
        n > 0,
{
    k % n
}

/// Seat that makes pick number `k` (counting from zero) in a snake draft with
/// `n` seats. Within every cycle of `2 * n` picks the seats run `0, 1, ...,
/// n - 1` and then back down `n - 1, n - 2, ..., 0`.
pub open spec fn snake_seat_of_pick(k: nat, n: nat) -> nat
    recommends
        n > 0,
{
    let c = k % (2 * n);
    if c < n {
        c
    } else {
        (2 * n - 1 - c) as nat
    }
}

/// Seat that picks next, given the rotation mode, the number of picks made so
/// far, and the number of seats.
pub open spec fn next_seat_of(dt: DraftType, total_picks: nat, n: nat) -> nat
    recommends
        n > 0,
{
    match dt {
        DraftType::Snake => snake_seat_of_pick(total_picks + 1, n),
        DraftType::Linear => linear_seat_of_pick(total_picks + 1, n),
    }
}

/// Every seat computed by either rotation lies within the table.
pub proof fn lemma_seat_in_range(k: nat, n: nat)
    requires
        n > 0,
    ensures
        linear_seat_of_pick(k, n) < n,
        snake_seat_of_pick(k, n) < n,
{
    lemma_mod_division_less_than_divisor(k as int, n as int);
    lemma_mod_division_less_than_divisor(k as int, 2 * n as int);
}

/// How the remainder by `m` changes from `i - 1` to `i`: it steps up by one,
/// or wraps to zero at a multiple of `m`.
proof fn lemma_mod_succ(i: nat, m: nat)
    requires
        i >= 1,
        m >= 2,
    ensures
        (i - 1) as nat % m == m - 1 ==> i % m == 0,
        (i - 1) as nat % m < m - 1 ==> i % m == (i - 1) as nat % m + 1,
{
    let p = (i - 1) as nat % m;
    lemma_mod_division_less_than_divisor((i - 1) as int, m as int);
    lemma_add_mod_noop((i - 1) as int, 1int, m as int);
    lemma_small_mod(1nat, m);
    if p == m - 1 {
        lemma_mod_self_0(m as int);
        assert(i % m == ((p + 1) % m));
    } else {
        lemma_small_mod((p + 1) as nat, m);
    }
}

/// The remainder by `n` is determined by the remainder by `2 * n`.
proof fn lemma_mod_n_of_mod_2n(i: nat, n: nat)
    requires
        n > 0,
    ensures
        i % n == (i % (2 * n)) % n,
{
    let m = 2 * n;
    lemma_fundamental_div_mod(i as int, m as int);
    lemma_mod_division_less_than_divisor(i as int, m as int);
    let q = i as int / m as int;
    assert(i as int == m * q + (i % m));
    assert(2 * (n as int) * q == (n as int) * (2 * q)) by (nonlinear_arith);
    lemma_mod_multiples_vanish(2 * q, (i % m) as int, n as int);
}

/// One step of the incremental snake walk: how the seat of pick `i` relates
/// to the seat of pick `i - 1`.
proof fn lemma_snake_step(i: nat, n: nat)
    requires
        n > 0,
        i >= 1,
    ensures
        i % n == 0 ==> snake_seat_of_pick(i, n) == snake_seat_of_pick((i - 1) as nat, n),
        i % n != 0 && i % (2 * n) <= n ==> snake_seat_of_pick(i, n) == snake_seat_of_pick(
            (i - 1) as nat,
            n,
        ) + 1,
        i % n != 0 && i % (2 * n) > n ==> snake_seat_of_pick((i - 1) as nat, n) >= 1
            && snake_seat_of_pick(i, n) == snake_seat_of_pick((i - 1) as nat, n) - 1,
{
    let m = 2 * n;
    let c = i % m;
    let p = (i - 1) as nat % m;
    lemma_mod_division_less_than_divisor(i as int, m as int);
    lemma_mod_division_less_than_divisor((i - 1) as int, m as int);
    lemma_mod_succ(i, m);
    lemma_mod_n_of_mod_2n(i, n);
    lemma_mod_division_less_than_divisor(c as int, n as int);
    if c < n {
        lemma_small_mod(c, n);
    } else {
        lemma_mod_sub_multiples_vanish(c as int, n as int);
        assert((c - n) % (n as int) == c % n);
        lemma_small_mod((c - n) as nat, n);
    }
}

/// Returns the seat that makes the next pick in a linear draft, given that
/// `total_picks` picks have been made among `number_of_drafters` seats.
pub fn linear_draft(total_picks: u32, number_of_drafters: u32) -> (seat: u32)
    requires
        number_of_drafters > 0,
        total_picks < u32::MAX,
    ensures
        seat == linear_seat_of_pick((total_picks + 1) as nat, number_of_drafters as nat),
        seat < number_of_drafters,
{
    (total_picks + 1) % number_of_drafters
}

/// Returns the seat that makes the next pick in a snake draft, given that
/// `total_picks` picks have been made among `number_of_drafters` seats.
///
/// Walks the table one pick at a time, skipping a step at every multiple of
/// `number_of_drafters`, which gives the boundary seats their double turn.
pub fn snake_draft(total_picks: u32, number_of_drafters: u32) -> (seat: u32)
    requires
        number_of_drafters > 0,
    ensures
        seat == snake_seat_of_pick((total_picks + 1) as nat, number_of_drafters as nat),
        seat < number_of_drafters,
{
    let n = number_of_drafters as u64;
    let end = total_picks as u64 + 1;
    let mut next_seat: u64 = 0;
    let mut i: u64 = 0;
    proof {
        lemma_small_mod(0nat, (2 * n) as nat);
    }
    while i <= end
        invariant
            n == number_of_drafters,
            n > 0,
            end == total_picks + 1,
            i <= end + 1,
            i == 0 ==> next_seat == 0,
            i >= 1 ==> next_seat == snake_seat_of_pick((i - 1) as nat, n as nat),
            next_seat < n,
        decreases end + 1 - i,
    {
        proof {
            if i >= 1 {
                lemma_snake_step(i as nat, n as nat);
            } else {
                lemma_small_mod(0nat, (2 * n) as nat);
            }
            lemma_seat_in_range(i as nat, n as nat);
        }
        if i % n == 0 {
            // the boundary seat picks twice in a row: do not move
        } else if i % (2 * n) <= n {
            next_seat = next_seat + 1;
        } else {
            next_seat = next_seat - 1;
        }
        i = i + 1;
    }
    next_seat as u32
}

/// Law: in a linear draft, consecutive picks move to the next seat around the
/// circle, so the seats come in increasing order and wrap to zero.
pub proof fn lemma_linear_successor(k: nat, n: nat)
    requires
        n > 0,
    ensures
        linear_seat_of_pick(k + 1, n) == (linear_seat_of_pick(k, n) + 1) % n,
{
    lemma_add_mod_noop(k as int, 1int, n as int);
    if n == 1 {
        lemma_mod_self_0(1int);
        lemma_mod_division_less_than_divisor(k as int, 1int);
    } else {
        lemma_small_mod(1nat, n);
    }
}

/// Law: in a linear draft with `n` seats, every window of `n` consecutive
/// picks visits every seat exactly once.
pub proof fn lemma_linear_visits_each_seat_once(start: nat, s: nat, n: nat)
    requires
        n > 0,
        s < n,
    ensures
        exists|k: nat|
            start <= k < start + n && #[trigger] linear_seat_of_pick(k, n) == s,
        forall|k1: nat, k2: nat|
            #![trigger linear_seat_of_pick(k1, n), linear_seat_of_pick(k2, n)]
            start <= k1 < start + n && start <= k2 < start + n && k1 != k2
                ==> linear_seat_of_pick(k1, n) != linear_seat_of_pick(k2, n),
{
    let r = start % n;
    lemma_mod_division_less_than_divisor(start as int, n as int);
    let delta: nat = (((s + n - r) as int) % (n as int)) as nat;
    lemma_mod_division_less_than_divisor((s + n - r) as int, n as int);
    let k: nat = start + delta;
    assert(linear_seat_of_pick(k, n) == s) by {
        lemma_fundamental_div_mod(start as int, n as int);
        let q = start as int / n as int;
        assert(k as int == n * q + r + delta);
        lemma_mod_multiples_vanish(q, (r + delta) as int, n as int);
        lemma_add_mod_noop(r as int, (s + n - r) as int, n as int);
        lemma_small_mod(r, n);
        lemma_mod_add_multiples_vanish(s as int, n as int);
        lemma_small_mod(s, n);
    }
    assert forall|k1: nat, k2: nat|
        start <= k1 < start + n && start <= k2 < start + n && k1 != k2 implies #[trigger]
        linear_seat_of_pick(k1, n) != #[trigger] linear_seat_of_pick(k2, n) by {
        if linear_seat_of_pick(k1, n) == linear_seat_of_pick(k2, n) {
            let (lo, hi) = if k1 < k2 {
                (k1, k2)
            } else {
                (k2, k1)
            };
            let d = (hi - lo) as nat;
            lemma_add_mod_noop(lo as int, d as int, n as int);
            lemma_mod_division_less_than_divisor(lo as int, n as int);
            lemma_small_mod(d, n);
            let b: nat = lo % n + d;
            if b < n {
                lemma_small_mod(b, n);
            } else {
                lemma_mod_sub_multiples_vanish(b as int, n as int);
                lemma_small_mod((b - n) as nat, n);
            }
        }
    }
}

/// Law: a snake draft runs in cycles of `2 * n` picks; within each cycle the
/// seats climb `0, 1, ..., n - 1` and then descend `n - 1, n - 2, ..., 0`.
pub proof fn lemma_snake_cycle_pattern(q: nat, j: nat, n: nat)
    requires
        n > 0,
        j < 2 * n,
    ensures
        j < n ==> snake_seat_of_pick(2 * n * q + j, n) == j,
        j >= n ==> snake_seat_of_pick(2 * n * q + j, n) == 2 * n - 1 - j,
{
    let m = 2 * n;
    lemma_mod_multiples_vanish(q as int, j as int, m as int);
    lemma_small_mod(j, m);
}

/// Law: whenever pick `k + 1` falls at a multiple of `n`, the same boundary
/// seat makes picks `k` and `k + 1`: the two consecutive turns at each
/// direction change.
pub proof fn lemma_snake_boundary_double_turn(k: nat, n: nat)
    requires
        n > 0,
        (k + 1) % n == 0,
    ensures
        snake_seat_of_pick(k + 1, n) == snake_seat_of_pick(k, n),
{
    lemma_snake_step(k + 1, n);
}

} // verus!
