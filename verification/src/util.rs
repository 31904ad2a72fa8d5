//! Arithmetic on sequence numbers and metrics.
use vstd::prelude::*;

verus! {

/// The metric of an unreachable destination.
pub const INF: u16 = 0xFFFF;

/// How far `b` lies ahead of `a` on the 16-bit cycle.
pub open spec fn seqno_distance(a: u16, b: u16) -> int {
    (b - a) % 65536
}

/// `a` comes before `b` on the 16-bit cycle: `b` is ahead of `a` by less than
/// half a turn.
pub open spec fn less_than(a: u16, b: u16) -> bool {
    0 < seqno_distance(a, b) < 32768
}

/// The successor of `x` after `y` steps on the 16-bit cycle.
pub open spec fn advanced(x: u16, y: u16) -> u16 {
    ((x + y) % 65536) as u16
}

/// The sum of two metrics. An unreachable part makes the whole unreachable;
/// a finite sum never reaches `INF`.
pub open spec fn metric_sum(cost_a: u16, cost_b: u16) -> u16 {
    if cost_a == INF || cost_b == INF {
        INF
    } else if cost_a + cost_b < INF - 1 {
        (cost_a + cost_b) as u16
    } else {
        (INF - 1) as u16
    }
}

/// Compares whether `a` is before `b` modulo 65536.
pub fn seqno_less_than(a: u16, b: u16) -> (r: bool)
    ensures
        r == less_than(a, b),
{
    let x: u16 = if b >= a {
        b - a
    } else {
        (65535 - (a - b)) + 1
    };
    0 < x && x < 32768
}

/// Increments `x` modulo 65536.
pub fn increment(x: &mut u16)
    ensures
        *final(x) == advanced(*old(x), 1),
{
    *x = increment_by(*x, 1);
}

/// Adds `y` to `x` modulo 65536.
pub fn increment_by(x: u16, y: u16) -> (r: u16)
    ensures
        r == advanced(x, y),
{
    if y <= 65535 - x {
        x + y
    } else {
        y - (65535 - x) - 1
    }
}

/// Adds two metrics, saturating below `INF`.
pub fn sum_inf(cost_a: u16, cost_b: u16) -> (r: u16)
    ensures
        r == metric_sum(cost_a, cost_b),
{
    if cost_a == INF || cost_b == INF {
        INF
    } else if cost_b < INF - 1 - cost_a {
        cost_a + cost_b
    } else {
        INF - 1
    }
}

/// A sequence number is never before itself, and of two sequence numbers at
/// most one is before the other.
pub proof fn lemma_less_than_asymmetric(a: u16, b: u16)
    ensures
        !less_than(a, a),
        less_than(a, b) ==> !less_than(b, a),
        a != b && seqno_distance(a, b) != 32768 ==> (less_than(a, b) || less_than(b, a)),
{
}

/// Every sequence number is before its successor, also across the wrap from
/// 65535 to 0.
pub proof fn lemma_successor_is_later(a: u16)
    ensures
        less_than(a, advanced(a, 1)),
        !less_than(advanced(a, 1), a),
{
}

/// The sum does not depend on the order of its parts, it is unreachable
/// exactly where a part is, a finite sum is no smaller than either part, and
/// below saturation it is the plain sum.
pub proof fn lemma_metric_sum_bounds(cost_a: u16, cost_b: u16)
    ensures
        metric_sum(cost_a, cost_b) == metric_sum(cost_b, cost_a),
        metric_sum(cost_a, cost_b) == INF <==> (cost_a == INF || cost_b == INF),
        metric_sum(cost_a, cost_b) != INF ==> metric_sum(cost_a, cost_b) >= cost_a,
        metric_sum(cost_a, cost_b) != INF ==> metric_sum(cost_a, cost_b) >= cost_b,
        cost_a != INF && cost_b != INF && cost_a + cost_b < INF - 1 ==> metric_sum(cost_a, cost_b)
            == cost_a + cost_b,
{
}

} // verus!
