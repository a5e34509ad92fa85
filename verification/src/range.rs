//! Randomized work-range generation: two independent draws from `[10, 100]`,
//! ordered into an inclusive interval.

use vstd::prelude::*;

verus! {

/// An inclusive integer interval handed to a caller as one unit of work.
/// Every generated range satisfies `10 <= low <= high <= 100`.
#[derive(Clone, Copy, Debug, PartialEq, Eq, Structural)]
pub struct WorkRange {
    pub low: i32,
    pub high: i32,
}

impl WorkRange {
    /// Well-formedness of a generated range.
    pub open spec fn wf(self) -> bool {
        10 <= self.low <= self.high <= 100
    }
}

/// Relies on `rand::Rng::gen_range` over an inclusive integer range, which
/// returns a uniformly distributed value within the range and panics only
/// when the range is empty.
#[verifier::external_body]
fn draw_in_range(lo: i32, hi: i32) -> (r: i32)
    requires
        lo <= hi,
    ensures
        lo <= r <= hi,
{
    rand::Rng::gen_range(&mut rand::thread_rng(), lo..=hi)
}

/// Order two drawn values into an interval.
pub fn order_pair(a: i32, b: i32) -> (r: WorkRange)
    ensures
        r.low == if a <= b { a } else { b },
        r.high == if a <= b { b } else { a },
{
    if a <= b {
        WorkRange { low: a, high: b }
    } else {
        WorkRange { low: b, high: a }
    }
}

/// Generate a fresh work range: two independent draws from `[10, 100]`,
/// sorted.  No state is kept between calls, and nothing rules out two
/// callers receiving identical or overlapping ranges.
pub fn generate_interval() -> (r: WorkRange)
    ensures
        r.wf(),
{
    let a = draw_in_range(10, 100);
    let b = draw_in_range(10, 100);
    order_pair(a, b)
}

} // verus!
