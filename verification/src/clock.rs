//! The indices that order records: readings of the wall clock, made to
//! increase strictly.

use vstd::prelude::*;

verus! {

/// Reads the wall clock: the system time, as the `DateTime<Utc>` that the
/// `chrono` crate makes of a `SystemTime`, and of that the number of
/// nanoseconds since 1970 that `DateTime::timestamp_nanos_opt` gives. A time
/// before 1970 reads as a negative number, and a time that 64 bits cannot
/// hold, before 1677 or after 2262, reads as `None`.
///
/// Nothing is claimed of the reading: the clock may stand still or be set
/// back between two calls. The conversion holds every time within 262 000
/// years of 1970, and so every time that a system clock can be set to.
#[verifier::external_body]
pub(crate) fn wall_clock_nanos() -> (nanos: Option<i64>) {
    chrono::DateTime::<chrono::Utc>::from(std::time::SystemTime::now()).timestamp_nanos_opt()
}

/// The index that follows `last` when the wall clock reads `wall`: the
/// reading itself if it is later than `last`, and else the number after
/// `last`.
pub open spec fn next_index(last: Option<int>, wall: int) -> int {
    match last {
        Some(index) => if wall > index {
            wall
        } else {
            index + 1
        },
        None => wall,
    }
}

/// Each index is greater than the one before it, whatever the clock read.
pub proof fn lemma_indices_increase(last: Option<int>, first_wall: int, second_wall: int)
    ensures
        last matches Some(index) ==> index < next_index(last, first_wall),
        next_index(last, first_wall) < next_index(
            Some(next_index(last, first_wall)),
            second_wall,
        ),
{
}

/// A source of indices that never hands out an index twice, nor one that is
/// not greater than the last, even where the wall clock stands still or is
/// set back.
pub struct IndexClock {
    last: Option<i64>,
}

impl IndexClock {
    /// The last index that the clock handed out, if it handed out any.
    pub closed spec fn last(&self) -> Option<int> {
        match self.last {
            Some(index) => Some(index as int),
            None => None,
        }
    }

    /// A clock that has handed out no index yet.
    pub fn new() -> (clock: Self)
        ensures
            clock.last() is None,
    {
        IndexClock { last: None }
    }

    /// A clock that goes on after `last`.
    pub fn starting_after(last: i64) -> (clock: Self)
        ensures
            clock.last() == Some(last as int),
    {
        IndexClock { last: Some(last) }
    }

    /// The next index, given that the wall clock reads `wall`. It is `None`,
    /// and the clock is as it was, only where no 64-bit number is left.
    pub fn advance(&mut self, wall: i64) -> (index: Option<i64>)
        ensures
            next_index(old(self).last(), wall as int) <= i64::MAX ==> index == Some(
                next_index(old(self).last(), wall as int) as i64,
            ) && final(self).last() == Some(next_index(old(self).last(), wall as int)),
            next_index(old(self).last(), wall as int) > i64::MAX ==> index is None
                && final(self).last() == old(self).last(),
    {
        let next = match self.last {
            Some(last) => if wall > last {
                wall
            } else if last < i64::MAX {
                last + 1
            } else {
                return None;
            },
            None => wall,
        };
        self.last = Some(next);
        Some(next)
    }

    /// The next index, read from the wall clock. It is greater than every
    /// index that the clock handed out before. It is `None`, and the clock
    /// is as it was, where the wall clock cannot be read as a 64-bit number
    /// or no such number is left.
    pub fn stamp(&mut self) -> (index: Option<i64>)
        ensures
            match index {
                Some(stamped) => final(self).last() == Some(stamped as int)
                    && (old(self).last() matches Some(before) ==> before < stamped),
                None => final(self).last() == old(self).last(),
            },
    {
        match wall_clock_nanos() {
            Some(wall) => self.advance(wall),
            None => None,
        }
    }
}

} // verus!
