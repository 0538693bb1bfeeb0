//! Throttled progress reports.

use vstd::prelude::*;

verus! {

/// Least distance between two reports, in percentage points.
pub const STEP_PERCENT: usize = 5;

/// Decides when to report progress. The percentage is of completed work units, not of
/// time.
pub struct Progress {
    total: usize,
    last_reported: Option<usize>,
}

/// The percentage of completed work; no work is complete from the start.
pub open spec fn percent_of(total: int, completed: int) -> int {
    let done = if completed < total {
        completed
    } else {
        total
    };
    if total == 0 {
        100
    } else {
        done * 100 / total
    }
}

/// Whether a percentage is worth a report after the last one: the first always, and
/// then each that is higher by a step or completes the work.
pub open spec fn worth_reporting(last: Option<usize>, percent: int) -> bool {
    match last {
        None => true,
        Some(l) => percent > l && (percent == 100 || percent >= l + STEP_PERCENT),
    }
}

impl Progress {
    pub closed spec fn total_units(self) -> usize {
        self.total
    }

    /// The last percentage that was reported.
    pub closed spec fn last(self) -> Option<usize> {
        self.last_reported
    }

    pub fn new(total: usize) -> (r: Self)
        ensures
            r.total_units() == total,
            r.last() is None,
    {
        Progress { total, last_reported: None }
    }

    /// The percentage to report for this many completed units, if it is worth a report.
    pub fn update(&mut self, completed: usize) -> (r: Option<usize>)
        ensures
            final(self).total_units() == old(self).total_units(),
            match r {
                Some(p) => p == percent_of(old(self).total_units() as int, completed as int)
                    && worth_reporting(old(self).last(), p as int) && final(self).last() == Some(p),
                None => !worth_reporting(
                    old(self).last(),
                    percent_of(old(self).total_units() as int, completed as int),
                ) && final(self).last() == old(self).last(),
            },
    {
        let done = if completed < self.total {
            completed
        } else {
            self.total
        };
        let percent: usize = if self.total == 0 {
            100
        } else {
            proof {
                lemma_percent_bound(self.total as int, done as int);
            }
            ((done as u128) * 100 / (self.total as u128)) as usize
        };
        let report = match self.last_reported {
            None => true,
            Some(last) => percent > last && (percent == 100 || percent - last >= STEP_PERCENT),
        };
        if report {
            self.last_reported = Some(percent);
            Some(percent)
        } else {
            None
        }
    }
}

proof fn lemma_percent_bound(total: int, done: int)
    requires
        0 <= done <= total,
        total > 0,
    ensures
        0 <= done * 100 / total <= 100,
{
    assert(0 <= done * 100 / total <= 100) by (nonlinear_arith)
        requires
            0 <= done <= total,
            total > 0,
    ;
}

/// Reports only go up.
pub proof fn reports_increase(last: usize, percent: int)
    requires
        worth_reporting(Some(last), percent),
    ensures
        percent > last,
{
}

/// The end of the work is reported as 100 percent, unless that was reported already.
pub proof fn completion_is_reported(total: int, completed: int, last: Option<usize>)
    requires
        0 <= total <= completed,
        last is Some ==> last->0 < 100,
    ensures
        percent_of(total, completed) == 100,
        worth_reporting(last, percent_of(total, completed)),
{
    if total > 0 {
        assert((total * 100) / total == 100) by (nonlinear_arith)
            requires
                total > 0,
        ;
    }
}

/// A percentage is the whole part of the share of the work that is done: all of it is
/// exactly a hundred percent.
pub proof fn percentages_are_shares(total: int, completed: int)
    requires
        0 <= total,
        0 <= completed,
    ensures
        0 <= percent_of(total, completed) <= 100,
        percent_of(total, completed) == 100 <==> completed >= total,
        total > 0 && completed <= total ==> percent_of(total, completed) * total <= completed * 100
            < (percent_of(total, completed) + 1) * total,
{
    if total > 0 {
        let done = if completed < total {
            completed
        } else {
            total
        };
        lemma_percent_bound(total, done);
        let p = done * 100 / total;
        assert(p * total <= done * 100 < (p + 1) * total) by (nonlinear_arith)
            requires
                p == done * 100 / total,
                total > 0,
                0 <= done,
        ;
        if completed < total && p == 100 {
            assert(false) by (nonlinear_arith)
                requires
                    p * total <= done * 100,
                    p == 100,
                    done < total,
            ;
        }
        if completed >= total {
            assert(p == 100) by (nonlinear_arith)
                requires
                    p == total * 100 / total,
                    total > 0,
            ;
        }
    }
}

/// After the first report, the next comes at the end or when five percent more are done,
/// and no percentage is reported twice.
pub proof fn reports_come_in_steps(last: Option<usize>, percent: int)
    requires
        0 <= percent <= 100,
    ensures
        last is None ==> worth_reporting(last, percent),
        last is Some && percent >= last->0 + 5 ==> worth_reporting(last, percent),
        last is Some && last->0 < percent == 100 ==> worth_reporting(last, percent),
        last is Some && percent < last->0 + 5 && percent != 100 ==> !worth_reporting(last, percent),
        last is Some && percent <= last->0 ==> !worth_reporting(last, percent),
{
}

} // verus!
