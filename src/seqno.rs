//! Sequence numbers and metrics: 16-bit values with their protocol orderings.
use vstd::prelude::*;

verus! {

/// The reserved metric value that stands for an unreachable route.
pub const INFINITE_METRIC: u16 = 0xFFFF;

/// Half of the sequence-number space: the forward distance under which a
/// sequence number counts as newer.
pub const SEQNO_HALF_RANGE: u16 = 0x8000;

/// Forward distance from `b` to `a` in the circular 16-bit space.
pub open spec fn seqno_distance(a: u16, b: u16) -> int {
    (a as int - b as int) % 65536
}

/// `a` is strictly newer than `b`: they differ and the forward distance from
/// `b` to `a` is less than half of the space.
pub open spec fn seqno_newer(a: u16, b: u16) -> bool {
    a != b && seqno_distance(a, b) < 32768
}

/// A metric is finite unless it holds the reserved infinite value.
pub open spec fn metric_finite(m: u16) -> bool {
    m != INFINITE_METRIC
}

/// Circular comparison of sequence numbers.
pub fn is_newer(a: u16, b: u16) -> (r: bool)
    ensures
        r == seqno_newer(a, b),
{
    a != b && a.wrapping_sub(b) < SEQNO_HALF_RANGE
}

/// The sequence number that follows `s`, wrapping at the top of the space.
pub fn next_seqno(s: u16) -> (r: u16)
    ensures
        r as int == (s as int + 1) % 65536,
{
    s.wrapping_add(1)
}

} // verus!
