//! Counting results.

use vstd::prelude::*;

verus! {

/// How many tests failed and how many did not.
#[derive(Clone, Copy, Debug, PartialEq, Eq, Structural)]
pub struct Stats {
    pub failed_tests: i32,
    pub successful_tests: i32,
}

impl Default for Stats {
    fn default() -> (stats: Stats)
        ensures
            stats == Stats::none(),
            stats.failed_tests == 0,
            stats.successful_tests == 0,
    {
        Stats { failed_tests: 0, successful_tests: 0 }
    }
}

impl Stats {
    /// The count of no tests.
    pub open spec fn none() -> Stats {
        Stats { failed_tests: 0, successful_tests: 0 }
    }

    /// The count of one test with this outcome.
    pub open spec fn one<E>(outcome: Result<(), E>) -> Stats {
        match outcome {
            Ok(_) => Stats { failed_tests: 0, successful_tests: 1 },
            Err(_) => Stats { failed_tests: 1, successful_tests: 0 },
        }
    }

    /// Whether neither count is negative.
    pub open spec fn natural(self) -> bool {
        self.failed_tests >= 0 && self.successful_tests >= 0
    }

    /// Whether the sum of two counts can be held.
    pub open spec fn can_add(self, other: Stats) -> bool {
        &&& i32::MIN <= self.failed_tests + other.failed_tests <= i32::MAX
        &&& i32::MIN <= self.successful_tests + other.successful_tests <= i32::MAX
    }

    /// The sum of two counts, where it can be held.
    pub open spec fn sum(self, other: Stats) -> Stats {
        Stats {
            failed_tests: (self.failed_tests + other.failed_tests) as i32,
            successful_tests: (self.successful_tests + other.successful_tests) as i32,
        }
    }

    /// The count of one test with this outcome.
    pub fn of<E>(outcome: &Result<(), E>) -> (stats: Stats)
        ensures
            stats == Stats::one(*outcome),
            stats.failed_tests == if outcome is Err {
                1int
            } else {
                0
            },
            stats.successful_tests == if outcome is Ok {
                1int
            } else {
                0
            },
    {
        Stats {
            successful_tests: if outcome.is_ok() {
                1
            } else {
                0
            },
            failed_tests: if outcome.is_err() {
                1
            } else {
                0
            },
        }
    }

    /// Adds another count to this one.
    pub fn add_assign(&mut self, other: Stats)
        requires
            old(self).can_add(other),
        ensures
            *final(self) == old(self).sum(other),
            final(self).failed_tests == old(self).failed_tests + other.failed_tests,
            final(self).successful_tests == old(self).successful_tests + other.successful_tests,
    {
        self.failed_tests = self.failed_tests + other.failed_tests;
        self.successful_tests = self.successful_tests + other.successful_tests;
    }
}

impl core::ops::Add for Stats {
    type Output = Self;

    fn add(self, other: Stats) -> (total: Self)
        ensures
            total.failed_tests == self.failed_tests + other.failed_tests,
            total.successful_tests == self.successful_tests + other.successful_tests,
    {
        let mut total = self;
        total.add_assign(other);
        total
    }
}

impl vstd::std_specs::ops::AddSpecImpl for Stats {
    open spec fn obeys_add_spec() -> bool {
        true
    }

    open spec fn add_req(self, other: Stats) -> bool {
        self.can_add(other)
    }

    open spec fn add_spec(self, other: Stats) -> Stats {
        self.sum(other)
    }
}

/// Counts add up in any order, and the count of no tests adds nothing.
pub proof fn law_sum(a: Stats, b: Stats, c: Stats)
    requires
        a.can_add(b),
        b.can_add(c),
        a.sum(b).can_add(c),
        a.can_add(b.sum(c)),
    ensures
        a.sum(b) == b.sum(a),
        a.sum(b).sum(c) == a.sum(b.sum(c)),
        a.sum(Stats::none()) == a,
{
}

/// Each count of a sum is the sum of the counts, which can be held exactly where both of its counts
/// can.
pub proof fn law_sum_counts(a: Stats, b: Stats)
    ensures
        a.can_add(b) <==> {
            &&& i32::MIN <= a.failed_tests + b.failed_tests <= i32::MAX
            &&& i32::MIN <= a.successful_tests + b.successful_tests <= i32::MAX
        },
        a.can_add(b) ==> a.sum(b).failed_tests == a.failed_tests + b.failed_tests,
        a.can_add(b) ==> a.sum(b).successful_tests == a.successful_tests + b.successful_tests,
{
}

/// One test counts as one: as failed where its outcome is an error, and as successful where it is
/// none.
pub proof fn law_one<E>(outcome: Result<(), E>)
    ensures
        Stats::one(outcome).failed_tests + Stats::one(outcome).successful_tests == 1,
        outcome is Err <==> Stats::one(outcome).failed_tests == 1,
        outcome is Ok <==> Stats::one(outcome).successful_tests == 1,
        Stats::none().failed_tests == 0,
        Stats::none().successful_tests == 0,
{
}

} // verus!
