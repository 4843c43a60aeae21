//! Wrap-around sequence-number arithmetic.
//!
//! A sequence number identifies transmit order over a fixed-size finite ring
//! of 256 values. Comparison is circular: a "newer" value may have a smaller
//! numeric representation after the counter wraps.

use core::cmp::Ordering;
use vstd::prelude::*;

verus! {

/// A counter over the ring of 256 values, representing transmit order.
pub type SequenceNr = u8;

/// Largest raw value on the ring.
pub const SEQUENCE_NR_MAX: SequenceNr = 255;

/// Smallest raw value on the ring.
pub const SEQUENCE_NR_MIN: SequenceNr = 0;

/// The value one position after `a` on the ring, wrapping at the boundary.
pub open spec fn seq_next(a: SequenceNr) -> SequenceNr {
    if a == SEQUENCE_NR_MAX {
        0
    } else {
        (a + 1) as SequenceNr
    }
}

/// Ordering of `a` and `b` by their raw numeric value.
pub open spec fn spec_raw_cmp(a: SequenceNr, b: SequenceNr) -> Ordering {
    if a < b {
        Ordering::Less
    } else if a == b {
        Ordering::Equal
    } else {
        Ordering::Greater
    }
}

/// Circular ordering of two ring values: `Less` means `a` is older than `b`.
///
/// If the raw distance between the values is less than half the ring's size
/// (128 of 256 values), raw numeric order is transmit order; a distance of
/// 128 or more means the counter wrapped between them, so raw order is
/// inverted. Gaps of up to 127 generations are therefore ordered correctly;
/// a gap of exactly 128 is inherently ambiguous on a 256-value ring. The
/// scheme is meaningful only while the true generation gap between compared
/// values stays within that tolerance; the precondition is the caller's
/// responsibility and is not checked at runtime.
pub open spec fn spec_compare(a: SequenceNr, b: SequenceNr) -> Ordering {
    let difference = if a >= b {
        a - b
    } else {
        b - a
    };
    if difference < 128 {
        spec_raw_cmp(a, b)
    } else {
        spec_raw_cmp(b, a)
    }
}

/// Circular comparison of two sequence numbers (see [`spec_compare`]).
pub fn overflow_aware_compare(a: SequenceNr, b: SequenceNr) -> (r: Ordering)
    ensures
        r == spec_compare(a, b),
{
    let difference = if a >= b {
        a - b
    } else {
        b - a
    };
    if difference < 128 {
        if a < b {
            Ordering::Less
        } else if a == b {
            Ordering::Equal
        } else {
            Ordering::Greater
        }
    } else {
        if b < a {
            Ordering::Less
        } else if b == a {
            Ordering::Equal
        } else {
            Ordering::Greater
        }
    }
}

/// Every ring value compares equal to itself.
pub proof fn lemma_compare_reflexive(a: SequenceNr)
    ensures
        spec_compare(a, a) == Ordering::Equal,
{
}

/// Every ring value is older than its successor and the successor is newer,
/// including across the wrap boundary.
pub proof fn lemma_compare_successor(a: SequenceNr)
    ensures
        spec_compare(a, seq_next(a)) == Ordering::Less,
        spec_compare(seq_next(a), a) == Ordering::Greater,
{
}

} // verus!
