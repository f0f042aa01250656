//! How far a long piece of work has come.

use vstd::prelude::*;

verus! {

/// The progress of a piece of work.
#[derive(Debug)]
pub struct Progress {
    pub label: String,
    /// How much there is to do; zero when that is not known.
    pub total: u64,
    pub current: u64,
}

/// How far work has come that is told to have come so far.
pub open spec fn as_far(total: u64, told: int) -> int {
    if total > 0 && told > total {
        total as int
    } else {
        told
    }
}

impl Progress {
    /// What is done never passes what there is to do.
    pub open spec fn wf(self) -> bool {
        self.total > 0 ==> self.current <= self.total
    }

    pub fn new(label: &str, total: u64) -> (r: Progress)
        ensures
            r.wf(),
            r.label@ == label@,
            r.total == total,
            r.current == 0,
    {
        Progress { label: label.to_owned(), total, current: 0 }
    }

    /// So much is done, as far as there is as much to do.
    pub fn set(&mut self, current: u64)
        ensures
            final(self).wf(),
            final(self).label == old(self).label,
            final(self).total == old(self).total,
            final(self).current == as_far(old(self).total, current as int),
            final(self).current == (if old(self).total > 0 && current > old(self).total {
                old(self).total
            } else {
                current
            }),
    {
        self.current = if self.total > 0 && current > self.total {
            self.total
        } else {
            current
        };
    }

    /// So much more is done.
    pub fn inc(&mut self, n: u64)
        requires
            old(self).current + n <= u64::MAX,
        ensures
            final(self).wf(),
            final(self).label == old(self).label,
            final(self).total == old(self).total,
            final(self).current == as_far(old(self).total, old(self).current + n),
            final(self).current == (if old(self).total > 0 && old(self).current + n > old(
                self,
            ).total {
                old(self).total as int
            } else {
                old(self).current + n
            }),
    {
        let next: u64 = self.current + n;
        self.set(next);
    }
}

/// Work is as far as it is told to be, and never farther than there is to do.
pub proof fn law_progress_ends_at_the_total(total: u64, told: int)
    requires
        0 <= told,
    ensures
        total > 0 && told <= total ==> as_far(total, told) == told,
        total > 0 && told >= total ==> as_far(total, told) == total,
        total == 0 ==> as_far(total, told) == told,
{
}

} // verus!
