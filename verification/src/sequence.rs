//! Arithmetic on 16-bit sequence numbers, which wrap around.
use vstd::prelude::*;

verus! {

/// How many numbers there are before a sequence number comes round again.
pub const SEQUENCE_SPAN: u32 = 65536;

/// Half of the span: a number less than this far ahead counts as newer.
pub const SEQUENCE_HALF: u16 = 32768;

/// Steps from `from` forward to `to`.
pub open spec fn seq_offset(from: u16, to: u16) -> int {
    if to >= from {
        to - from
    } else {
        to + 65536 - from
    }
}

/// The number `steps` after `from`.
pub open spec fn seq_plus(from: u16, steps: int) -> u16 {
    ((from + steps) % 65536) as u16
}

/// Steps from `from` forward to `to`.
pub fn sequence_offset(from: u16, to: u16) -> (steps: u16)
    ensures
        steps == seq_offset(from, to),
        seq_plus(from, steps as int) == to,
{
    if to >= from {
        to - from
    } else {
        (to as u32 + 65536 - from as u32) as u16
    }
}

/// The number after `from`.
pub fn sequence_after(from: u16) -> (next: u16)
    ensures
        next == seq_plus(from, 1),
        seq_offset(from, next) == 1,
{
    if from == u16::MAX {
        0
    } else {
        from + 1
    }
}

/// The number `steps` before `from`.
pub open spec fn seq_back(from: u16, steps: int) -> u16 {
    ((from + 65536 - steps) % 65536) as u16
}

/// The number `steps` before `from`.
pub fn sequence_before(from: u16, steps: u16) -> (earlier: u16)
    ensures
        earlier == seq_back(from, steps as int),
        seq_offset(earlier, from) == steps,
        seq_plus(earlier, steps as int) == from,
{
    if from >= steps {
        from - steps
    } else {
        (from as u32 + 65536 - steps as u32) as u16
    }
}

/// Whether `a` is newer than `b`: ahead of it by less than half the span.
pub open spec fn seq_newer(a: u16, b: u16) -> bool {
    0 < seq_offset(b, a) < SEQUENCE_HALF
}

/// Whether `a` is newer than `b`.
pub fn sequence_newer(a: u16, b: u16) -> (newer: bool)
    ensures
        newer == seq_newer(a, b),
{
    let steps = sequence_offset(b, a);
    0 < steps && steps < SEQUENCE_HALF
}

/// The offset between two numbers is the difference of what they count,
/// wherever that difference is less than the span.
pub proof fn lemma_offset_of_counts(from: nat, to: nat)
    requires
        from <= to < from + 65536,
    ensures
        seq_offset((from % 65536) as u16, (to % 65536) as u16) == to - from,
{
}

} // verus!
