//! Reading per-file output (one row per changed file) into commits, and
//! summing the rows by calendar period.

use crate::commit::{sum_counts, Commit, CommitView};
use crate::date::{parse_from_str, Date};
use crate::parser::{
    bucket_key, bucket_key_in_range, group_commits, has_key, header_date, is_grouping,
    members_of, option_seq, views, LogGroupBy, DATE_FORMAT,
};
use crate::stat::clamp_count;
use crate::text::{
    chars_of, copy_range, find, find_line_end, find_word_end, is_white_space, line_at,
    line_content_end, lines_from, parse_u32, parse_u32_chars, skip_spaces, skip_white_space,
    split_from, string_of, word_end,
};
use vstd::prelude::*;

verus! {

/// The number in a column of a per-file row; 0 where the column holds no
/// number that fits in a `u32` (a `-` marks a binary file).
pub open spec fn column_value(f: Seq<char>) -> u32 {
    match parse_u32(f) {
        Some(n) => n,
        None => 0,
    }
}

/// The inserted and deleted lines of one per-file row `<added> <removed> <path>`:
/// its first two whitespace-separated columns. A row with fewer than two
/// columns counts for nothing.
pub open spec fn row_counts(row: Seq<char>) -> (u32, u32) {
    let a0 = skip_white_space(row, 0);
    let b0 = word_end(row, a0);
    let a1 = skip_white_space(row, b0);
    let b1 = word_end(row, a1);
    if a0 >= row.len() || a1 >= row.len() {
        (0, 0)
    } else {
        (column_value(row.subrange(a0, b0)), column_value(row.subrange(a1, b1)))
    }
}

/// The sums of the counts of per-file rows.
pub open spec fn rows_sum(rows: Seq<Seq<char>>) -> (int, int)
    decreases rows.len(),
{
    if rows.len() == 0 {
        (0, 0)
    } else {
        let before = rows_sum(rows.drop_last());
        let last = row_counts(rows.last());
        (before.0 + last.0, before.1 + last.1)
    }
}

/// The commit that a chunk of per-file output describes, if any. The first
/// line is the header `<hash>|<date>`, each further line a per-file row. A
/// chunk without rows, with too few header fields, or with a date that does
/// not parse describes none.
pub open spec fn numstat_commit(c: Seq<char>) -> Option<CommitView> {
    let ls = lines_from(c, 0);
    if ls.len() < 2 {
        None
    } else {
        let fields = split_from(ls[0], seq!['|'], 0);
        if fields.len() < 2 {
            None
        } else {
            match header_date(fields[1]) {
                Some(date) => Some(
                    CommitView {
                        hash: fields[0],
                        date,
                        insertion: clamp_count(rows_sum(ls.skip(1)).0) as u32,
                        deletion: clamp_count(rows_sum(ls.skip(1)).1) as u32,
                    },
                ),
                None => None,
            }
        }
    }
}

/// The row holds fewer than two whitespace-separated columns.
pub open spec fn fewer_than_two_columns(row: Seq<char>) -> bool {
    let a0 = skip_white_space(row, 0);
    a0 >= row.len() || skip_white_space(row, word_end(row, a0)) >= row.len()
}

/// The counts of one per-file row; a row with fewer than two columns (a
/// truncated line) counts as no change.
pub fn parse_row(row: &Vec<char>) -> (r: (u32, u32))
    ensures
        r == row_counts(row@),
        fewer_than_two_columns(row@) ==> r == (0u32, 0u32),
{
    let a0 = skip_spaces(row, 0);
    let b0 = find_word_end(row, a0);
    let a1 = skip_spaces(row, b0);
    let b1 = find_word_end(row, a1);
    if a0 >= row.len() || a1 >= row.len() {
        return (0, 0);
    }
    let added = match parse_u32_chars(&copy_range(row, a0, b0)) {
        Some(n) => n,
        None => 0,
    };
    let removed = match parse_u32_chars(&copy_range(row, a1, b1)) {
        Some(n) => n,
        None => 0,
    };
    (added, removed)
}

/// The commits that a sequence of chunks of per-file output describes, in order.
pub open spec fn numstat_commits(cs: Seq<Seq<char>>) -> Seq<CommitView>
    decreases cs.len(),
{
    if cs.len() == 0 {
        Seq::empty()
    } else {
        numstat_commits(cs.drop_last()) + option_seq(numstat_commit(cs.last()))
    }
}

/// The header of a chunk of per-file output has a date field, and chrono
/// reads no date from it.
pub open spec fn numstat_date_unparseable(c: Seq<char>) -> bool {
    let ls = lines_from(c, 0);
    &&& ls.len() >= 1
    &&& split_from(ls[0], seq!['|'], 0).len() >= 2
    &&& header_date(split_from(ls[0], seq!['|'], 0)[1]) is None
}

proof fn lemma_numstat_commits_append(a: Seq<Seq<char>>, b: Seq<Seq<char>>)
    ensures
        numstat_commits(a + b) == numstat_commits(a) + numstat_commits(b),
    decreases b.len(),
{
    if b.len() == 0 {
        assert(a + b =~= a);
        assert(numstat_commits(a) + numstat_commits(b) =~= numstat_commits(a));
    } else {
        lemma_numstat_commits_append(a, b.drop_last());
        assert((a + b).drop_last() =~= a + b.drop_last());
        assert((a + b).last() == b.last());
        assert(numstat_commits(a + b) =~= numstat_commits(a) + numstat_commits(b));
    }
}

/// A chunk of per-file output whose date does not parse describes no commit,
/// and leaving it out changes nothing in what the other chunks describe.
pub proof fn lemma_numstat_unparseable_date_isolated(chunks: Seq<Seq<char>>, k: int)
    requires
        0 <= k < chunks.len(),
        numstat_date_unparseable(chunks[k]),
    ensures
        numstat_commit(chunks[k]) is None,
        numstat_commits(chunks) == numstat_commits(chunks.remove(k)),
{
    let before = chunks.take(k);
    let after = chunks.skip(k + 1);
    assert(chunks =~= before + seq![chunks[k]] + after);
    assert(chunks.remove(k) =~= before + after);
    lemma_numstat_commits_append(before + seq![chunks[k]], after);
    lemma_numstat_commits_append(before, seq![chunks[k]]);
    lemma_numstat_commits_append(before, after);
    assert(numstat_commit(chunks[k]) is None);
    assert(seq![chunks[k]].drop_last() =~= Seq::<Seq<char>>::empty());
    assert(numstat_commits(Seq::<Seq<char>>::empty()) =~= Seq::<CommitView>::empty());
    assert(seq![chunks[k]].last() == chunks[k]);
    assert(numstat_commits(seq![chunks[k]]) =~= Seq::<CommitView>::empty());
    assert(numstat_commits(before) + Seq::<CommitView>::empty() =~= numstat_commits(before));
}

proof fn lemma_rows_sum_remove(rows: Seq<Seq<char>>, j: int)
    requires
        0 <= j < rows.len(),
    ensures
        rows_sum(rows).0 == rows_sum(rows.remove(j)).0 + row_counts(rows[j]).0,
        rows_sum(rows).1 == rows_sum(rows.remove(j)).1 + row_counts(rows[j]).1,
    decreases rows.len(),
{
    if j == rows.len() - 1 {
        assert(rows.remove(j) =~= rows.drop_last());
    } else {
        lemma_rows_sum_remove(rows.drop_last(), j);
        assert(rows.remove(j).drop_last() =~= rows.drop_last().remove(j));
        assert(rows.remove(j).last() == rows.last());
    }
}

/// A per-file row with fewer than two columns (a truncated line) adds
/// nothing: the rows with it and without it sum to the same counts.
pub proof fn lemma_short_row_adds_nothing(rows: Seq<Seq<char>>, j: int)
    requires
        0 <= j < rows.len(),
        fewer_than_two_columns(rows[j]),
    ensures
        row_counts(rows[j]) == (0u32, 0u32),
        rows_sum(rows) == rows_sum(rows.remove(j)),
{
    lemma_rows_sum_remove(rows, j);
}

/// A chunk of per-file output describes the same commit with or without a
/// row of fewer than two columns: `shorter` has the lines of `chunk` but for
/// that row.
pub proof fn lemma_short_row_leaves_commit(chunk: Seq<char>, shorter: Seq<char>, j: int)
    requires
        1 <= j < lines_from(chunk, 0).len(),
        lines_from(shorter, 0) == lines_from(chunk, 0).remove(j),
        fewer_than_two_columns(lines_from(chunk, 0)[j]),
        lines_from(chunk, 0).len() > 2,
    ensures
        numstat_commit(shorter) == numstat_commit(chunk),
{
    let ls = lines_from(chunk, 0);
    let ls2 = lines_from(shorter, 0);
    assert(ls2.skip(1) =~= ls.skip(1).remove(j - 1));
    assert(ls2[0] == ls[0]);
    lemma_short_row_adds_nothing(ls.skip(1), j - 1);
}

pub open spec fn str_views(v: Seq<&str>) -> Seq<Seq<char>> {
    Seq::new(v.len(), |i: int| v[i]@)
}

/// `out` holds, for each period with a commit of `cs`, in ascending order of
/// the period's last day, the summed counts of the period's commits (each held
/// at `u32::MAX`).
pub open spec fn is_period_totals(
    out: Seq<(Date, (u32, u32))>,
    cs: Seq<Commit>,
    group: LogGroupBy,
) -> bool {
    &&& forall|i: int, j: int|
        0 <= i < j < out.len() ==> (#[trigger] out[i]).0.spec_before((#[trigger] out[j]).0)
    &&& forall|i: int|
        0 <= i < out.len() ==> {
            &&& members_of(cs, (#[trigger] out[i]).0, group).len() > 0
            &&& out[i].1.0 == clamp_count(sum_counts(members_of(cs, out[i].0, group)).0)
            &&& out[i].1.1 == clamp_count(sum_counts(members_of(cs, out[i].0, group)).1)
        }
    &&& forall|k: int|
        0 <= k < cs.len() ==> has_key(out, bucket_key((#[trigger] cs[k]).spec_date(), group))
}

/// The commit that a chunk of per-file output describes, if any.
fn parse_numstat_chunk(chunk: &str) -> (r: Option<Commit>)
    ensures
        match r {
            Some(x) => numstat_commit(chunk@) == Some(x@),
            None => numstat_commit(chunk@) is None,
        },
{
    let c = chars_of(chunk);
    if c.len() == 0 {
        return None;
    }
    let e0 = find_line_end(&c, 0);
    let h_end = line_content_end(&c, 0, e0);
    proof {
        crate::text::lemma_line_end_bounds(c@, 0);
    }
    let ghost ls = lines_from(c@, 0);
    assert(ls == seq![line_at(c@, 0)] + lines_from(c@, e0 + 1));
    if e0 >= c.len() - 1 {
        assert(lines_from(c@, e0 + 1) =~= Seq::<Seq<char>>::empty());
        return None;
    }
    let header = copy_range(&c, 0, h_end);
    proof {
        crate::text::lemma_line_end_bounds(c@, e0 + 1);
    }
    assert(lines_from(c@, e0 + 1).len() > 0);
    assert(ls.len() >= 2);
    let mut s = e0 + 1;
    let mut ins: u32 = 0;
    let mut del: u32 = 0;
    let ghost mut done: Seq<Seq<char>> = Seq::empty();
    assert(ls.skip(1) =~= done + lines_from(c@, s as int));
    loop
        invariant_except_break
            s < c.len(),
            ls.skip(1) == done + lines_from(c@, s as int),
        invariant
            ls == lines_from(c@, 0),
            ins == clamp_count(rows_sum(done).0),
            del == clamp_count(rows_sum(done).1),
        ensures
            ls.skip(1) == done,
        decreases c.len() - s,
    {
        let e = find_line_end(&c, s);
        let ce = line_content_end(&c, s, e);
        let row = copy_range(&c, s, ce);
        let counts = parse_row(&row);
        ins = ins.saturating_add(counts.0);
        del = del.saturating_add(counts.1);
        let ghost before = done;
        proof {
            done = done.push(line_at(c@, s as int));
            assert(done.drop_last() =~= before);
            assert(lines_from(c@, s as int) == seq![line_at(c@, s as int)] + lines_from(c@, e + 1));
            assert(before + lines_from(c@, s as int) =~= done + lines_from(c@, e + 1));
        }
        if e >= c.len() - 1 {
            assert(lines_from(c@, e + 1) =~= Seq::<Seq<char>>::empty());
            assert(done + lines_from(c@, e + 1) =~= done);
            break ;
        }
        s = e + 1;
    }
    let bar = vec!['|'];
    let ghost bar_s = seq!['|'];
    assert(bar@ =~= bar_s);
    let ghost fields = split_from(header@, bar_s, 0);
    assert(ls[0] == header@);
    let first_bar = match find(&header, &bar, 0) {
        Some(p) => p,
        None => {
            assert(fields.len() == 1);
            return None;
        },
    };
    proof {
        crate::text::lemma_find_from_bounds(header@, bar_s, 0);
    }
    let end = match find(&header, &bar, first_bar + 1) {
        Some(p) => p,
        None => header.len(),
    };
    proof {
        crate::text::lemma_find_from_bounds(header@, bar_s, first_bar + 1);
    }
    let hash = string_of(&header, 0, first_bar);
    let date_text = string_of(&header, first_bar + 1, end);
    let ghost rest = split_from(header@, bar_s, first_bar + 1);
    assert(fields == seq![header@.subrange(0, first_bar as int)] + rest);
    assert(rest.len() >= 1 && rest[0] == date_text@);
    assert(fields[0] == hash@);
    assert(fields[1] == date_text@);
    let date = match parse_from_str(date_text.as_str(), DATE_FORMAT) {
        Some(d) => d,
        None => {
            return None;
        },
    };
    assert(c@ == chunk@);
    Some(Commit::new(hash, date, ins, del))
}

/// The commits of a history read from per-file output, one chunk per commit.
#[derive(Debug)]
pub struct Commits {
    commits: Vec<Commit>,
}

impl Commits {
    pub closed spec fn spec_commits(self) -> Seq<Commit> {
        self.commits@
    }

    pub fn new() -> (r: Commits)
        ensures
            r.spec_commits() == Seq::<Commit>::empty(),
    {
        Commits { commits: Vec::new() }
    }

    /// The commits that the chunks describe, in order; a chunk that describes
    /// none is passed over.
    fn _parse(&self, orig_commits: Vec<&str>) -> (r: Vec<Commit>)
        ensures
            views(r@) == numstat_commits(str_views(orig_commits@)),
    {
        let mut commits: Vec<Commit> = Vec::new();
        let ghost cs = str_views(orig_commits@);
        let mut k: usize = 0;
        while k < orig_commits.len()
            invariant
                k <= orig_commits.len(),
                cs == str_views(orig_commits@),
                views(commits@) == numstat_commits(cs.take(k as int)),
            decreases orig_commits.len() - k,
        {
            let ghost before = views(commits@);
            assert(cs.take(k + 1).drop_last() =~= cs.take(k as int));
            match parse_numstat_chunk(orig_commits[k]) {
                Some(c) => {
                    commits.push(c);
                    assert(views(commits@) =~= before + option_seq(numstat_commit(cs[k as int])));
                },
                None => {
                    assert(views(commits@) =~= before + option_seq(numstat_commit(cs[k as int])));
                },
            }
            k = k + 1;
        }
        assert(cs.take(k as int) =~= cs);
        commits
    }

    /// The commits that the chunks describe, in place of those of `self`.
    pub fn parse(&self, orig_commits: Vec<&str>) -> (r: Self)
        ensures
            views(r.spec_commits()) == numstat_commits(str_views(orig_commits@)),
    {
        let commits = self._parse(orig_commits);
        Commits { commits }
    }

    pub fn get_commits(&self) -> (r: &Vec<Commit>)
        ensures
            r@ == self.spec_commits(),
    {
        &self.commits
    }

    fn period_totals(&self, group: &LogGroupBy) -> (r: Vec<(Date, (u32, u32))>)
        requires
            forall|k: int|
                0 <= k < self.spec_commits().len() ==> bucket_key_in_range(
                    (#[trigger] self.spec_commits()[k]).spec_date(),
                    *group,
                ),
        ensures
            is_period_totals(r@, self.spec_commits(), *group),
    {
        assert(self.commits@ == self.spec_commits());
        let grouped = group_commits(&self.commits, group);
        let mut out: Vec<(Date, (u32, u32))> = Vec::new();
        let mut i: usize = 0;
        while i < grouped.len()
            invariant
                i <= grouped.len(),
                is_grouping(grouped@, self.spec_commits(), *group),
                out.len() == i,
                forall|m: int|
                    0 <= m < i ==> (#[trigger] out@[m]).0 == grouped@[m].0 && out@[m].1.0
                        == grouped@[m].1.spec_stat().spec_insertion() && out@[m].1.1
                        == grouped@[m].1.spec_stat().spec_deletion(),
            decreases grouped.len() - i,
        {
            let entry = &grouped[i];
            out.push((entry.0, (entry.1.get_insertion(), entry.1.get_deletion())));
            i = i + 1;
        }
        let ghost cs = self.spec_commits();
        assert forall|k: int| 0 <= k < cs.len() implies has_key(
            out@,
            bucket_key((#[trigger] cs[k]).spec_date(), *group),
        ) by {
            assert(has_key(grouped@, bucket_key(cs[k].spec_date(), *group)));
            let i = choose|i: int|
                0 <= i < grouped@.len() && (#[trigger] grouped@[i]).0 == bucket_key(
                    cs[k].spec_date(),
                    *group,
                );
            assert(out@[i].0 == grouped@[i].0);
        }
        assert forall|a: int, b: int| 0 <= a < b < out@.len() implies (#[trigger] out@[a]).0.spec_before(
            (#[trigger] out@[b]).0,
        ) by {
            assert(grouped@[a].0.spec_before(grouped@[b].0));
        }
        assert forall|m: int| 0 <= m < out@.len() implies {
            &&& members_of(cs, (#[trigger] out@[m]).0, *group).len() > 0
            &&& out@[m].1.0 == clamp_count(sum_counts(members_of(cs, out@[m].0, *group)).0)
            &&& out@[m].1.1 == clamp_count(sum_counts(members_of(cs, out@[m].0, *group)).1)
        } by {
            assert(grouped@[m].1.counts_are_sums());
        }
        out
    }

    /// The summed counts of the commits of each year, in ascending order of
    /// the year's last day.
    pub fn group_by_year(&self) -> (r: Vec<(Date, (u32, u32))>)
        requires
            forall|k: int|
                0 <= k < self.spec_commits().len() ==> bucket_key_in_range(
                    (#[trigger] self.spec_commits()[k]).spec_date(),
                    LogGroupBy::Year,
                ),
        ensures
            is_period_totals(r@, self.spec_commits(), LogGroupBy::Year),
    {
        self.period_totals(&LogGroupBy::Year)
    }

    /// The summed counts of the commits of each month, in ascending order of
    /// the month's last day.
    pub fn group_by_month(&self) -> (r: Vec<(Date, (u32, u32))>)
        requires
            forall|k: int|
                0 <= k < self.spec_commits().len() ==> bucket_key_in_range(
                    (#[trigger] self.spec_commits()[k]).spec_date(),
                    LogGroupBy::Month,
                ),
        ensures
            is_period_totals(r@, self.spec_commits(), LogGroupBy::Month),
    {
        self.period_totals(&LogGroupBy::Month)
    }
}

impl<'a> vstd::std_specs::convert::FromSpecImpl<Vec<&'a str>> for Commits {
    open spec fn obeys_from_spec() -> bool {
        false
    }

    open spec fn from_spec(v: Vec<&'a str>) -> Commits {
        arbitrary()
    }
}

impl<'a> From<Vec<&'a str>> for Commits {
    fn from(str: Vec<&'a str>) -> (r: Commits)
        ensures
            views(r.spec_commits()) == numstat_commits(str_views(str@)),
    {
        let parser = Commits::new();
        let commits = parser._parse(str);
        Commits { commits }
    }
}

} // verus!
