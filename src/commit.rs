//! Commits and groups of commits with their combined counts.

use crate::date::Date;
use crate::stat::{clamp_count, StateAccess, Stat};
use vstd::prelude::*;

verus! {

/// What a commit holds, as plain values.
pub struct CommitView {
    pub hash: Seq<char>,
    pub date: Date,
    pub insertion: u32,
    pub deletion: u32,
}

/// One commit of the history: its hash, the day it was authored, and its
/// line counts.
#[derive(Debug)]
pub struct Commit {
    hash: String,
    date: Date,
    stat: Stat,
}

impl Commit {
    #[verifier::type_invariant]
    spec fn date_is_valid(self) -> bool {
        self.date.wf()
    }

    pub closed spec fn spec_hash(self) -> Seq<char> {
        self.hash@
    }

    pub closed spec fn spec_date(self) -> Date {
        self.date
    }

    pub closed spec fn spec_stat(self) -> Stat {
        self.stat
    }

    pub open spec fn spec_insertion(self) -> u32 {
        self.spec_stat().spec_insertion()
    }

    pub open spec fn spec_deletion(self) -> u32 {
        self.spec_stat().spec_deletion()
    }

    pub fn new(hash: String, date: Date, insertion: u32, deletion: u32) -> (r: Commit)
        requires
            date.wf(),
        ensures
            r@ == (CommitView { hash: hash@, date, insertion, deletion }),
            r.spec_stat().spec_change_delta() == insertion - deletion,
    {
        Commit { hash, date, stat: Stat::new(insertion, deletion) }
    }

    pub fn get_hash(&self) -> (r: &str)
        ensures
            r@ == self.spec_hash(),
    {
        self.hash.as_str()
    }

    pub fn get_date(&self) -> (r: Date)
        ensures
            r == self.spec_date(),
            r.wf(),
    {
        proof {
            use_type_invariant(self);
        }
        self.date
    }

    pub fn get_insertion(&self) -> (r: u32)
        ensures
            r == self.spec_insertion(),
    {
        self.stat.get_insertion()
    }

    pub fn get_deletion(&self) -> (r: u32)
        ensures
            r == self.spec_deletion(),
    {
        self.stat.get_deletion()
    }

    pub fn get_change_delta(&self) -> (r: i64)
        ensures
            r == self.spec_insertion() - self.spec_deletion(),
    {
        self.stat.get_change_delta()
    }
}

impl View for Commit {
    type V = CommitView;

    open spec fn view(&self) -> CommitView {
        CommitView {
            hash: self.spec_hash(),
            date: self.spec_date(),
            insertion: self.spec_insertion(),
            deletion: self.spec_deletion(),
        }
    }
}

impl Clone for Commit {
    fn clone(&self) -> (r: Commit)
        ensures
            r == *self,
    {
        proof {
            use_type_invariant(self);
        }
        Commit { hash: self.hash.clone(), date: self.date, stat: self.stat }
    }
}

/// The sums of the insertion and of the deletion counts of `cs`.
pub open spec fn sum_counts(cs: Seq<Commit>) -> (int, int)
    decreases cs.len(),
{
    if cs.len() == 0 {
        (0, 0)
    } else {
        let before = sum_counts(cs.drop_last());
        (before.0 + cs.last().spec_insertion(), before.1 + cs.last().spec_deletion())
    }
}

proof fn lemma_sum_counts_remove(cs: Seq<Commit>, j: int)
    requires
        0 <= j < cs.len(),
    ensures
        sum_counts(cs).0 == sum_counts(cs.remove(j)).0 + cs[j].spec_insertion(),
        sum_counts(cs).1 == sum_counts(cs.remove(j)).1 + cs[j].spec_deletion(),
    decreases cs.len(),
{
    if j == cs.len() - 1 {
        assert(cs.remove(j) =~= cs.drop_last());
    } else {
        lemma_sum_counts_remove(cs.drop_last(), j);
        assert(cs.remove(j).drop_last() =~= cs.drop_last().remove(j));
        assert(cs.remove(j).last() == cs.last());
    }
}

/// The sums of the counts of commits do not depend on their order.
pub proof fn lemma_sum_counts_permutation(a: Seq<Commit>, b: Seq<Commit>)
    requires
        a.to_multiset() == b.to_multiset(),
    ensures
        sum_counts(a) == sum_counts(b),
    decreases a.len(),
{
    broadcast use vstd::seq_lib::group_to_multiset_ensures;
    broadcast use vstd::multiset::group_multiset_axioms;

    if a.len() == 0 {
        assert(b.to_multiset().len() == 0);
    } else {
        let x = a.last();
        let a2 = a.drop_last();
        assert(a =~= a2.push(x));
        assert(b.to_multiset().count(x) > 0);
        let j = choose|j: int| 0 <= j < b.len() && b[j] == x;
        assert(b.remove(j).to_multiset() =~= a2.to_multiset());
        lemma_sum_counts_permutation(a2, b.remove(j));
        lemma_sum_counts_remove(b, j);
    }
}

/// The counts of a group are the sums over its members (each held at
/// `u32::MAX`), whatever order the members came in: two groups of the same
/// commits have the same counts.
pub proof fn lemma_group_counts_any_order(g1: GroupedCommit, g2: GroupedCommit)
    requires
        g1.counts_are_sums(),
        g2.counts_are_sums(),
        g1.spec_commits().to_multiset() == g2.spec_commits().to_multiset(),
    ensures
        g1.spec_stat().spec_insertion() == g2.spec_stat().spec_insertion(),
        g1.spec_stat().spec_deletion() == g2.spec_stat().spec_deletion(),
        g1.spec_stat().spec_change_delta() == g2.spec_stat().spec_change_delta(),
        sum_counts(g1.spec_commits()).0 <= u32::MAX ==> g1.spec_stat().spec_insertion() == sum_counts(
            g2.spec_commits(),
        ).0,
        sum_counts(g1.spec_commits()).1 <= u32::MAX ==> g1.spec_stat().spec_deletion() == sum_counts(
            g2.spec_commits(),
        ).1,
{
    lemma_sum_counts_permutation(g1.spec_commits(), g2.spec_commits());
}

/// The commits of one calendar period and their combined line counts.
#[derive(Debug)]
pub struct GroupedCommit {
    commits: Vec<Commit>,
    stat: Stat,
}

impl GroupedCommit {
    #[verifier::type_invariant]
    spec fn stat_is_sum(self) -> bool {
        &&& self.stat.spec_insertion() == clamp_count(sum_counts(self.commits@).0)
        &&& self.stat.spec_deletion() == clamp_count(sum_counts(self.commits@).1)
    }

    pub closed spec fn spec_commits(self) -> Seq<Commit> {
        self.commits@
    }

    pub closed spec fn spec_stat(self) -> Stat {
        self.stat
    }

    /// The combined counts are the sums over the members, each held at
    /// `u32::MAX`.
    pub open spec fn counts_are_sums(self) -> bool {
        &&& self.spec_stat().spec_insertion() == clamp_count(sum_counts(self.spec_commits()).0)
        &&& self.spec_stat().spec_deletion() == clamp_count(sum_counts(self.spec_commits()).1)
        &&& self.spec_stat().spec_change_delta() == self.spec_stat().spec_insertion()
            - self.spec_stat().spec_deletion()
    }

    pub fn new(commits: Vec<Commit>) -> (r: GroupedCommit)
        ensures
            r.spec_commits() == commits@,
            r.counts_are_sums(),
    {
        let mut stat = Stat::new(0, 0);
        let mut i: usize = 0;
        while i < commits.len()
            invariant
                i <= commits.len(),
                stat.spec_insertion() == clamp_count(sum_counts(commits@.take(i as int)).0),
                stat.spec_deletion() == clamp_count(sum_counts(commits@.take(i as int)).1),
                stat.spec_change_delta() == stat.spec_insertion() - stat.spec_deletion(),
            decreases commits.len() - i,
        {
            stat = stat.combine(&commits[i].stat);
            proof {
                assert(commits@.take(i + 1).drop_last() =~= commits@.take(i as int));
            }
            i = i + 1;
        }
        proof {
            assert(commits@.take(i as int) =~= commits@);
        }
        GroupedCommit { commits, stat }
    }

    /// The members, taken out of the group.
    pub fn into_commits(self) -> (r: Vec<Commit>)
        ensures
            r@ == self.spec_commits(),
    {
        self.commits
    }

    pub fn get_commits(&self) -> (r: &Vec<Commit>)
        ensures
            r@ == self.spec_commits(),
    {
        &self.commits
    }

    pub fn get_insertion(&self) -> (r: u32)
        ensures
            r == self.spec_stat().spec_insertion(),
            r == clamp_count(sum_counts(self.spec_commits()).0),
    {
        proof {
            use_type_invariant(self);
        }
        self.stat.get_insertion()
    }

    pub fn get_deletion(&self) -> (r: u32)
        ensures
            r == self.spec_stat().spec_deletion(),
            r == clamp_count(sum_counts(self.spec_commits()).1),
    {
        proof {
            use_type_invariant(self);
        }
        self.stat.get_deletion()
    }

    pub fn get_change_delta(&self) -> (r: i64)
        ensures
            r == self.spec_stat().spec_change_delta(),
            r == self.spec_stat().spec_insertion() - self.spec_stat().spec_deletion(),
    {
        self.stat.get_change_delta()
    }

    /// A group that holds the members of `self` and then `commit`; `self`
    /// itself is left as it is.
    pub fn add_commits(&mut self, commit: Commit) -> (r: Self)
        ensures
            *final(self) == *old(self),
            r.spec_commits() == old(self).spec_commits().push(commit),
            r.counts_are_sums(),
    {
        let mut commits = self.commits.clone();
        proof {
            assert(commits@ =~= self.commits@);
        }
        commits.push(commit);
        GroupedCommit::new(commits)
    }
}

impl Default for GroupedCommit {
    fn default() -> (r: GroupedCommit)
        ensures
            r.spec_commits() == Seq::<Commit>::empty(),
            r.counts_are_sums(),
    {
        GroupedCommit::new(Vec::new())
    }
}

impl StateAccess for GroupedCommit {
    open spec fn stat_of(&self) -> Stat {
        self.spec_stat()
    }

    fn get_stat(&self) -> (r: &Stat) {
        &self.stat
    }
}

} // verus!
