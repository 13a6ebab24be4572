//! Inclusive scalar ranges `[min, max]` over fixed-point scalars. The empty
//! range is canonically `min == i64::MAX, max == i64::MIN`, the two sentinels
//! standing in for the infinities of an unbounded range.
use crate::fixed::tdiv;
use vstd::prelude::*;

verus! {

#[derive(Clone, Copy, PartialEq, Eq, Structural, Debug)]
pub struct Interval {
    pub min: i64,
    pub max: i64,
}

impl Interval {
    /// The canonical empty range.
    pub fn blank() -> (r: Interval)
        ensures
            r.min == i64::MAX,
            r.max == i64::MIN,
    {
        Interval { min: i64::MAX, max: i64::MIN }
    }

    pub fn new(min: i64, max: i64) -> (r: Interval)
        ensures
            r.min == min,
            r.max == max,
    {
        Interval { min, max }
    }

    /// The tightest range enclosing both inputs.
    pub fn from_intervals(a: &Interval, b: &Interval) -> (r: Interval)
        ensures
            r.min == if a.min <= b.min {
                a.min
            } else {
                b.min
            },
            r.max == if a.max >= b.max {
                a.max
            } else {
                b.max
            },
    {
        let min: i64 = if a.min <= b.min {
            a.min
        } else {
            b.min
        };
        let max: i64 = if a.max >= b.max {
            a.max
        } else {
            b.max
        };
        Interval::new(min, max)
    }

    /// The signed extent; negative for an empty range, hence the wide result.
    pub fn size(&self) -> (r: i128)
        ensures
            r == self.max as int - self.min as int,
    {
        (self.max as i128) - (self.min as i128)
    }

    /// Closed-range membership.
    pub fn contains(&self, x: i64) -> (r: bool)
        ensures
            r == (self.min <= x && x <= self.max),
    {
        self.min <= x && x <= self.max
    }

    /// Open-range membership.
    pub fn surrounds(&self, x: i64) -> (r: bool)
        ensures
            r == (self.min < x && x < self.max),
    {
        self.min < x && x < self.max
    }

    /// The range widened by half of `delta` on each side.
    pub fn expand(&self, delta: i64) -> (r: Interval)
        requires
            delta >= 0,
            i64::MIN as int <= self.min as int - tdiv(delta as int, 2),
            self.max as int + tdiv(delta as int, 2) <= i64::MAX as int,
        ensures
            r.min as int == self.min as int - tdiv(delta as int, 2),
            r.max as int == self.max as int + tdiv(delta as int, 2),
    {
        let padding: i64 = ((delta as u64) / 2u64) as i64;
        Interval::new(self.min - padding, self.max + padding)
    }

    /// `x` forced into the range (the range must not be empty).
    pub fn clamp(&self, x: i64) -> (r: i64)
        ensures
            r == if x < self.min {
                self.min
            } else if x > self.max {
                self.max
            } else {
                x
            },
    {
        if x < self.min {
            return self.min;
        }
        if x > self.max {
            return self.max;
        }
        x
    }
}

} // verus!
