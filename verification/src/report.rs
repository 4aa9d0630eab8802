//! What the report of a benchmark run needs: the request, the four
//! timings, and the unit in which they are drawn.

use vstd::prelude::*;

verus! {

/// The query of a request for a chart: the number of elements to sort.
#[derive(Clone, Copy, Debug, PartialEq, Eq, Structural)]
pub struct SvgQuery {
    pub user_input: u64,
}

/// The unit of the time axis.
#[derive(Clone, Copy, Debug, PartialEq, Eq, Structural)]
pub enum TimeUnit {
    Seconds,
    Milliseconds,
    Microseconds,
    Nanoseconds,
}

/// The durations of the four runs of one benchmark, in nanoseconds.
#[derive(Clone, Copy, Debug, PartialEq, Eq, Structural)]
pub struct Timings {
    pub single_quick: u128,
    pub multi_quick: u128,
    pub single_heap: u128,
    pub multi_heap: u128,
}

/// The greater of two durations.
pub open spec fn longer(a: u128, b: u128) -> u128 {
    if a >= b {
        a
    } else {
        b
    }
}

impl Timings {
    /// The longest of the four durations.
    pub open spec fn spec_largest(self) -> u128 {
        longer(
            longer(self.single_quick, self.single_heap),
            longer(self.multi_quick, self.multi_heap),
        )
    }

    /// The longest of the four durations.
    pub fn largest(&self) -> (most: u128)
        ensures
            most == self.spec_largest(),
            most >= self.single_quick && most >= self.multi_quick,
            most >= self.single_heap && most >= self.multi_heap,
    {
        let single: u128 = if self.single_quick >= self.single_heap {
            self.single_quick
        } else {
            self.single_heap
        };
        let multi: u128 = if self.multi_quick >= self.multi_heap {
            self.multi_quick
        } else {
            self.multi_heap
        };
        if single >= multi {
            single
        } else {
            multi
        }
    }

    /// The unit in which the four durations are drawn: that of the longest.
    pub fn unit(&self) -> (unit: TimeUnit)
        ensures
            unit == unit_for(self.spec_largest() as int),
    {
        choose_unit(self.largest())
    }
}

/// The count of a unit above which the next greater unit is chosen.
pub const UNIT_CUTOFF: u128 = 1000;

/// The number of nanoseconds in a microsecond.
pub const NANOS_PER_MICROSECOND: u128 = 1000;

/// The number of nanoseconds in a millisecond.
pub const NANOS_PER_MILLISECOND: u128 = 1_000_000;

/// The number of nanoseconds in a second.
pub const NANOS_PER_SECOND: u128 = 1_000_000_000;

/// The unit for a chart whose longest duration is `nanos` nanoseconds:
/// seconds where it exceeds `UNIT_CUTOFF` milliseconds, milliseconds where
/// it exceeds `UNIT_CUTOFF` microseconds, microseconds where it exceeds
/// `UNIT_CUTOFF` nanoseconds, else nanoseconds.
pub open spec fn unit_for(nanos: int) -> TimeUnit {
    if nanos > UNIT_CUTOFF * NANOS_PER_MILLISECOND {
        TimeUnit::Seconds
    } else if nanos > UNIT_CUTOFF * NANOS_PER_MICROSECOND {
        TimeUnit::Milliseconds
    } else if nanos > UNIT_CUTOFF {
        TimeUnit::Microseconds
    } else {
        TimeUnit::Nanoseconds
    }
}

/// Chooses the unit of the time axis from the longest duration.
pub fn choose_unit(largest_nanos: u128) -> (unit: TimeUnit)
    ensures
        unit == unit_for(largest_nanos as int),
{
    if largest_nanos > UNIT_CUTOFF * NANOS_PER_MILLISECOND {
        TimeUnit::Seconds
    } else if largest_nanos > UNIT_CUTOFF * NANOS_PER_MICROSECOND {
        TimeUnit::Milliseconds
    } else if largest_nanos > UNIT_CUTOFF {
        TimeUnit::Microseconds
    } else {
        TimeUnit::Nanoseconds
    }
}

/// The number of nanoseconds in one `unit`.
pub open spec fn nanos_per(unit: TimeUnit) -> int {
    match unit {
        TimeUnit::Seconds => NANOS_PER_SECOND as int,
        TimeUnit::Milliseconds => NANOS_PER_MILLISECOND as int,
        TimeUnit::Microseconds => NANOS_PER_MICROSECOND as int,
        TimeUnit::Nanoseconds => 1,
    }
}

/// The whole number of `unit`s in `nanos` nanoseconds.
pub fn whole_units(nanos: u128, unit: TimeUnit) -> (count: u128)
    ensures
        count == nanos as int / nanos_per(unit),
{
    match unit {
        TimeUnit::Seconds => nanos / NANOS_PER_SECOND,
        TimeUnit::Milliseconds => nanos / NANOS_PER_MILLISECOND,
        TimeUnit::Microseconds => nanos / NANOS_PER_MICROSECOND,
        TimeUnit::Nanoseconds => nanos,
    }
}

/// The label of the time axis, as a sequence of characters.
pub open spec fn label_of(unit: TimeUnit) -> Seq<char> {
    match unit {
        TimeUnit::Seconds => "In Seconds"@,
        TimeUnit::Milliseconds => "In Milliseconds"@,
        TimeUnit::Microseconds => "In Microseconds"@,
        TimeUnit::Nanoseconds => "In Nanoseconds"@,
    }
}

/// The label of the time axis.
pub fn axis_label(unit: TimeUnit) -> (label: &'static str)
    ensures
        label@ == label_of(unit),
{
    match unit {
        TimeUnit::Seconds => "In Seconds",
        TimeUnit::Milliseconds => "In Milliseconds",
        TimeUnit::Microseconds => "In Microseconds",
        TimeUnit::Nanoseconds => "In Nanoseconds",
    }
}

} // verus!
