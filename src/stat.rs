//! Counts of inserted and deleted lines, and their net change.

use vstd::prelude::*;

verus! {

/// Read access to the line counts of a value that carries a [`Stat`].
pub trait StateAccess {
    /// The statistics that the value carries.
    spec fn stat_of(&self) -> Stat;

    fn get_stat(&self) -> (r: &Stat)
        ensures
            *r == self.stat_of(),
    ;

    fn get_insertion(&self) -> (r: u32)
        ensures
            r == self.stat_of().spec_insertion(),
    {
        self.get_stat().insertion
    }

    fn get_deletion(&self) -> (r: u32)
        ensures
            r == self.stat_of().spec_deletion(),
    {
        self.get_stat().deletion
    }

    fn get_change_delta(&self) -> (r: i64)
        ensures
            r == self.stat_of().spec_change_delta(),
            r == self.stat_of().spec_insertion() - self.stat_of().spec_deletion(),
    {
        let s = self.get_stat();
        proof {
            use_type_invariant(s);
        }
        s.change_delta
    }
}

/// Immutable counts of inserted and deleted lines, with their net change.
#[derive(Debug, Clone, Copy)]
pub struct Stat {
    insertion: u32,
    deletion: u32,
    change_delta: i64,
}

/// A count of lines, held at `u32::MAX` when it does not fit.
pub open spec fn clamp_count(n: int) -> int {
    if n > u32::MAX {
        u32::MAX as int
    } else {
        n
    }
}

impl Stat {
    #[verifier::type_invariant]
    spec fn delta_is_derived(self) -> bool {
        self.change_delta == self.insertion - self.deletion
    }

    pub closed spec fn spec_insertion(self) -> u32 {
        self.insertion
    }

    pub closed spec fn spec_deletion(self) -> u32 {
        self.deletion
    }

    pub closed spec fn spec_change_delta(self) -> i64 {
        self.change_delta
    }

    pub fn new(insertion: u32, deletion: u32) -> (r: Stat)
        ensures
            r.spec_insertion() == insertion,
            r.spec_deletion() == deletion,
            r.spec_change_delta() == insertion - deletion,
    {
        Stat { insertion, deletion, change_delta: insertion as i64 - deletion as i64 }
    }

    /// The counts of `self` and `other` added pairwise (each held at
    /// `u32::MAX`), with the net change derived anew.
    pub fn combine(&self, other: &Stat) -> (r: Stat)
        ensures
            r.spec_insertion() == clamp_count(self.spec_insertion() + other.spec_insertion()),
            r.spec_deletion() == clamp_count(self.spec_deletion() + other.spec_deletion()),
            r.spec_change_delta() == r.spec_insertion() - r.spec_deletion(),
    {
        Stat::new(
            self.insertion.saturating_add(other.insertion),
            self.deletion.saturating_add(other.deletion),
        )
    }
}

impl Default for Stat {
    fn default() -> (r: Stat)
        ensures
            r.spec_insertion() == 0,
            r.spec_deletion() == 0,
            r.spec_change_delta() == 0,
    {
        Stat::new(0, 0)
    }
}

impl StateAccess for Stat {
    open spec fn stat_of(&self) -> Stat {
        *self
    }

    fn get_stat(&self) -> (r: &Stat) {
        self
    }
}

} // verus!
