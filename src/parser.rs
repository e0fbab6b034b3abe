//! Reading the log text (one summary line per commit) into commits, and
//! grouping the commits by calendar period.

use crate::commit::{sum_counts, Commit, CommitView, GroupedCommit};
use crate::stat::{clamp_count, StateAccess, Stat};
use crate::table::strings_view;
use crate::date::{date_of_fields, parse_from_str, parsed_ymd, Date};
use crate::utils::{
    last_day_of_month, last_day_of_year, month_end, month_end_in_range, year_end,
    year_end_in_range,
};
use crate::text::{
    chars_of, copy_range, digits_end, digits_to_u32, digits_value, find, find_digits_end,
    find_line_end, is_digit, line_content_end, lines_from, matches_at, occurs_at, split_from,
    string_of, trim, trim_chars,
};
use vstd::multiset::Multiset;
use vstd::prelude::*;

verus! {

/// What follows the number of a clause of the summary line:
/// ` insertion(+)`, ` insertions(+)`, ` deletion(-)` or ` deletions(-)`.
pub open spec fn clause_suffix(insertions: bool, plural: bool) -> Seq<char> {
    let word = if insertions {
        seq!['i', 'n', 's', 'e', 'r', 't', 'i', 'o', 'n']
    } else {
        seq!['d', 'e', 'l', 'e', 't', 'i', 'o', 'n']
    };
    let sign = if insertions {
        '+'
    } else {
        '-'
    };
    seq![' '] + word + (if plural {
        seq!['s']
    } else {
        Seq::empty()
    }) + seq!['(', sign, ')']
}

/// A clause of the summary line starts at `p`: a run of ASCII digits with no
/// digit before it, followed by the clause's words.
pub open spec fn clause_at(s: Seq<char>, insertions: bool, p: int) -> bool {
    &&& 0 <= p < s.len()
    &&& is_digit(s[p])
    &&& p == 0 || !is_digit(s[p - 1])
    &&& occurs_at(s, clause_suffix(insertions, false), digits_end(s, p)) || occurs_at(
        s,
        clause_suffix(insertions, true),
        digits_end(s, p),
    )
}

/// The first index at or after `i` where a clause starts.
pub open spec fn first_clause(s: Seq<char>, insertions: bool, i: int) -> Option<int>
    decreases s.len() - i,
{
    if i < 0 || i >= s.len() {
        None
    } else if clause_at(s, insertions, i) {
        Some(i)
    } else {
        first_clause(s, insertions, i + 1)
    }
}

/// The count of inserted (or deleted) lines that a summary line gives: the
/// number of its first such clause; 0 where there is none, or where the number
/// does not fit in a `u32`.
pub open spec fn clause_count(s: Seq<char>, insertions: bool) -> u32 {
    match first_clause(s, insertions, 0) {
        Some(p) => {
            let v = digits_value(s, p, digits_end(s, p));
            if v <= u32::MAX {
                v as u32
            } else {
                0
            }
        },
        None => 0,
    }
}

fn suffix_chars(insertions: bool, plural: bool) -> (r: Vec<char>)
    ensures
        r@ == clause_suffix(insertions, plural),
{
    let r = if insertions {
        if plural {
            vec![' ', 'i', 'n', 's', 'e', 'r', 't', 'i', 'o', 'n', 's', '(', '+', ')']
        } else {
            vec![' ', 'i', 'n', 's', 'e', 'r', 't', 'i', 'o', 'n', '(', '+', ')']
        }
    } else {
        if plural {
            vec![' ', 'd', 'e', 'l', 'e', 't', 'i', 'o', 'n', 's', '(', '-', ')']
        } else {
            vec![' ', 'd', 'e', 'l', 'e', 't', 'i', 'o', 'n', '(', '-', ')']
        }
    };
    assert(r@ =~= clause_suffix(insertions, plural));
    r
}

fn clause_count_of(line: &Vec<char>, insertions: bool) -> (r: u32)
    ensures
        r == clause_count(line@, insertions),
{
    let singular = suffix_chars(insertions, false);
    let plural = suffix_chars(insertions, true);
    let mut i: usize = 0;
    while i < line.len()
        invariant
            i <= line.len(),
            singular@ == clause_suffix(insertions, false),
            plural@ == clause_suffix(insertions, true),
            first_clause(line@, insertions, 0) == first_clause(line@, insertions, i as int),
        decreases line.len() - i,
    {
        let c = line[i];
        if '0' <= c && c <= '9' && (i == 0 || !('0' <= line[i - 1] && line[i - 1] <= '9')) {
            let q = find_digits_end(line, i);
            proof {
                crate::text::lemma_digits_end_bounds(line@, i as int);
            }
            if matches_at(line, &singular, q) || matches_at(line, &plural, q) {
                return match digits_to_u32(line, i, q) {
                    Some(n) => n,
                    None => 0,
                };
            }
        }
        i = i + 1;
    }
    0
}

/// The counts of inserted and deleted lines that a summary line gives, such
/// as ` 2 files changed, 6 insertions(+), 44 deletions(-)`.
pub fn summary_counts(line: &Vec<char>) -> (r: (u32, u32))
    ensures
        r == (clause_count(line@, true), clause_count(line@, false)),
{
    (clause_count_of(line, true), clause_count_of(line, false))
}

/// The layout of the date in a chunk's header: ISO 8601 with an offset.
pub const DATE_FORMAT: &'static str = "%Y-%m-%dT%H:%M:%S%z";

/// The token that starts each commit in the log text.
pub open spec fn commit_separator() -> Seq<char> {
    seq!['<', '<', 'C', 'O', 'M', 'M', 'I', 'T', '>', '>']
}

/// The day that the date field of a header names, if any.
pub open spec fn header_date(field: Seq<char>) -> Option<Date> {
    date_of_fields(parsed_ymd(field, DATE_FORMAT@))
}

/// The commit that a trimmed chunk of the log describes, if any. The first
/// line is the header `|<hash>|<date>`, the second the summary line. A chunk
/// without a summary line, with too few header fields, or with a date that
/// does not parse describes none.
pub open spec fn chunk_commit(c: Seq<char>) -> Option<CommitView> {
    let ls = lines_from(c, 0);
    if ls.len() < 2 {
        None
    } else {
        let fields = split_from(ls[0], seq!['|'], 0);
        if fields.len() < 3 {
            None
        } else {
            match header_date(fields[2]) {
                Some(date) => Some(
                    CommitView {
                        hash: fields[1],
                        date,
                        insertion: clause_count(ls[1], true),
                        deletion: clause_count(ls[1], false),
                    },
                ),
                None => None,
            }
        }
    }
}

pub open spec fn option_seq<T>(o: Option<T>) -> Seq<T> {
    match o {
        Some(x) => seq![x],
        None => Seq::empty(),
    }
}

/// The commits that a sequence of trimmed chunks describes, in order.
pub open spec fn chunks_commits(cs: Seq<Seq<char>>) -> Seq<CommitView>
    decreases cs.len(),
{
    if cs.len() == 0 {
        Seq::empty()
    } else {
        chunks_commits(cs.drop_last()) + option_seq(chunk_commit(cs.last()))
    }
}

pub open spec fn trim_all(ps: Seq<Seq<char>>) -> Seq<Seq<char>> {
    Seq::new(ps.len(), |i: int| trim(ps[i]))
}

pub open spec fn chunk_views(vs: Seq<Vec<char>>) -> Seq<Seq<char>> {
    Seq::new(vs.len(), |i: int| vs[i]@)
}

/// The header of the chunk has a date field, and chrono reads no date from it.
pub open spec fn date_unparseable(c: Seq<char>) -> bool {
    let ls = lines_from(c, 0);
    &&& ls.len() >= 1
    &&& split_from(ls[0], seq!['|'], 0).len() >= 3
    &&& header_date(split_from(ls[0], seq!['|'], 0)[2]) is None
}

/// The date field of the chunk's header, where it does not parse.
pub open spec fn chunk_bad_date(c: Seq<char>) -> Option<Seq<char>> {
    if date_unparseable(c) {
        Some(split_from(lines_from(c, 0)[0], seq!['|'], 0)[2])
    } else {
        None
    }
}

/// The date fields that do not parse, chunk by chunk, in order.
pub open spec fn failed_dates(cs: Seq<Seq<char>>) -> Seq<Seq<char>>
    decreases cs.len(),
{
    if cs.len() == 0 {
        Seq::empty()
    } else {
        failed_dates(cs.drop_last()) + option_seq(chunk_bad_date(cs.last()))
    }
}

proof fn lemma_chunks_commits_append(a: Seq<Seq<char>>, b: Seq<Seq<char>>)
    ensures
        chunks_commits(a + b) == chunks_commits(a) + chunks_commits(b),
    decreases b.len(),
{
    if b.len() == 0 {
        assert(a + b =~= a);
        assert(chunks_commits(a) + chunks_commits(b) =~= chunks_commits(a));
    } else {
        lemma_chunks_commits_append(a, b.drop_last());
        assert((a + b).drop_last() =~= a + b.drop_last());
        assert((a + b).last() == b.last());
        assert(chunks_commits(a + b) =~= chunks_commits(a) + chunks_commits(b));
    }
}

proof fn lemma_chunk_without_commit_isolated(chunks: Seq<Seq<char>>, k: int)
    requires
        0 <= k < chunks.len(),
        chunk_commit(chunks[k]) is None,
    ensures
        chunks_commits(chunks) == chunks_commits(chunks.remove(k)),
{
    let before = chunks.take(k);
    let after = chunks.skip(k + 1);
    assert(chunks =~= before + seq![chunks[k]] + after);
    assert(chunks.remove(k) =~= before + after);
    lemma_chunks_commits_append(before + seq![chunks[k]], after);
    lemma_chunks_commits_append(before, seq![chunks[k]]);
    lemma_chunks_commits_append(before, after);
    assert(seq![chunks[k]].drop_last() =~= Seq::<Seq<char>>::empty());
    assert(chunks_commits(Seq::<Seq<char>>::empty()) =~= Seq::<CommitView>::empty());
    assert(seq![chunks[k]].last() == chunks[k]);
    assert(chunks_commits(seq![chunks[k]]) =~= Seq::<CommitView>::empty());
    assert(chunks_commits(before) + Seq::<CommitView>::empty() =~= chunks_commits(before));
}

/// A chunk whose date does not parse describes no commit, and leaving it out
/// changes nothing in what the other chunks describe.
pub proof fn lemma_unparseable_date_isolated(chunks: Seq<Seq<char>>, k: int)
    requires
        0 <= k < chunks.len(),
        date_unparseable(chunks[k]),
    ensures
        chunk_commit(chunks[k]) is None,
        chunks_commits(chunks) == chunks_commits(chunks.remove(k)),
{
    lemma_chunk_without_commit_isolated(chunks, k);
}

/// A chunk that holds its header line and no summary line (a commit with no
/// line changes) describes no commit: it is dropped, and leaving it out
/// changes nothing in what the other chunks describe.
pub proof fn lemma_statless_chunk_dropped(chunks: Seq<Seq<char>>, k: int)
    requires
        0 <= k < chunks.len(),
        lines_from(chunks[k], 0).len() == 1,
    ensures
        chunk_commit(chunks[k]) is None,
        chunks_commits(chunks) == chunks_commits(chunks.remove(k)),
{
    lemma_chunk_without_commit_isolated(chunks, k);
}

/// The pieces that are not empty, in order.
pub open spec fn nonempty(ps: Seq<Seq<char>>) -> Seq<Seq<char>> {
    ps.filter(|p: Seq<char>| p.len() > 0)
}

proof fn lemma_nonempty_cons(x: Seq<char>, ps: Seq<Seq<char>>)
    ensures
        nonempty(seq![x] + ps) == (if x.len() > 0 {
            seq![x] + nonempty(ps)
        } else {
            nonempty(ps)
        }),
{
    let f = |p: Seq<char>| p.len() > 0;
    Seq::filter_distributes_over_add(seq![x], ps, f);
    Seq::<Seq<char>>::empty().lemma_filter_push(x, f);
    assert(Seq::<Seq<char>>::empty().push(x) =~= seq![x]);
    assert(Seq::<Seq<char>>::empty().filter(f) =~= Seq::<Seq<char>>::empty()) by {
        reveal(Seq::filter);
    }
    assert(Seq::<Seq<char>>::empty().push(x) == seq![x]);
    if x.len() > 0 {
        assert(Seq::<Seq<char>>::empty().push(x) =~= seq![x]);
    } else {
        assert(seq![x].filter(f) =~= Seq::<Seq<char>>::empty());
        assert(Seq::<Seq<char>>::empty() + nonempty(ps) =~= nonempty(ps));
    }
}

/// The chunks of a log text: the pieces between the separators, trimmed,
/// with those that are empty after trimming left out.
pub open spec fn log_chunks(text: Seq<char>) -> Seq<Seq<char>> {
    nonempty(trim_all(split_from(text, commit_separator(), 0)))
}

/// The commits that a log text describes, in order.
pub open spec fn log_commits(text: Seq<char>) -> Seq<CommitView> {
    chunks_commits(log_chunks(text))
}

pub open spec fn views(cs: Seq<Commit>) -> Seq<CommitView> {
    Seq::new(cs.len(), |i: int| cs[i]@)
}

fn separator_chars() -> (r: Vec<char>)
    ensures
        r@ == commit_separator(),
{
    let r = vec!['<', '<', 'C', 'O', 'M', 'M', 'I', 'T', '>', '>'];
    assert(r@ =~= commit_separator());
    r
}

/// The commit that a trimmed chunk describes, if any, and the date field of
/// its header where that does not parse.
fn parse_chunk(c: &Vec<char>) -> (r: (Option<Commit>, Option<String>))
    ensures
        match r.0 {
            Some(x) => chunk_commit(c@) == Some(x@),
            None => chunk_commit(c@) is None,
        },
        match r.1 {
            Some(d) => chunk_bad_date(c@) == Some(d@),
            None => chunk_bad_date(c@) is None,
        },
{
    if c.len() == 0 {
        return (None, None);
    }
    let e0 = find_line_end(c, 0);
    let h_end = line_content_end(c, 0, e0);
    proof {
        crate::text::lemma_line_end_bounds(c@, 0);
    }
    let ghost ls = lines_from(c@, 0);
    assert(ls == seq![crate::text::line_at(c@, 0)] + lines_from(c@, e0 + 1));
    let header = copy_range(c, 0, h_end);
    assert(ls[0] == header@);
    let bar = vec!['|'];
    let ghost bar_s = seq!['|'];
    assert(bar@ =~= bar_s);
    let ghost fields = split_from(header@, bar_s, 0);
    let first_bar = match find(&header, &bar, 0) {
        Some(p) => p,
        None => {
            assert(fields.len() == 1);
            return (None, None);
        },
    };
    proof {
        crate::text::lemma_find_from_bounds(header@, bar_s, 0);
    }
    let second_bar = match find(&header, &bar, first_bar + 1) {
        Some(p) => p,
        None => {
            assert(split_from(header@, bar_s, first_bar + 1).len() == 1);
            assert(fields.len() == 2);
            return (None, None);
        },
    };
    proof {
        crate::text::lemma_find_from_bounds(header@, bar_s, first_bar + 1);
    }
    let end = match find(&header, &bar, second_bar + 1) {
        Some(p) => p,
        None => header.len(),
    };
    proof {
        crate::text::lemma_find_from_bounds(header@, bar_s, second_bar + 1);
    }
    let hash = string_of(&header, first_bar + 1, second_bar);
    let date_text = string_of(&header, second_bar + 1, end);
    let ghost rest = split_from(header@, bar_s, second_bar + 1);
    let ghost middle = split_from(header@, bar_s, first_bar + 1);
    assert(fields == seq![header@.subrange(0, first_bar as int)] + middle);
    assert(middle == seq![header@.subrange(first_bar + 1, second_bar as int)] + rest);
    assert(rest.len() >= 1 && rest[0] == date_text@);
    assert(fields.len() >= 3);
    assert(fields[1] == hash@);
    assert(fields[2] == date_text@);
    let date = match parse_from_str(date_text.as_str(), DATE_FORMAT) {
        Some(d) => d,
        None => {
            return (None, Some(date_text));
        },
    };
    if e0 >= c.len() - 1 {
        assert(lines_from(c@, e0 + 1) =~= Seq::<Seq<char>>::empty());
        assert(ls.len() == 1);
        return (None, None);
    }
    let s1 = e0 + 1;
    let e1 = find_line_end(c, s1);
    let l1_end = line_content_end(c, s1, e1);
    let stats = copy_range(c, s1, l1_end);
    proof {
        crate::text::lemma_line_end_bounds(c@, s1 as int);
    }
    assert(lines_from(c@, s1 as int) == seq![crate::text::line_at(c@, s1 as int)] + lines_from(
        c@,
        e1 + 1,
    ));
    assert(ls[1] == stats@);
    assert(ls.len() >= 2);
    let counts = summary_counts(&stats);
    (Some(Commit::new(hash, date, counts.0, counts.1)), None)
}

/// How the commits are grouped: by calendar year or by month.
#[derive(Debug, Clone, Copy, PartialEq, Eq, Structural)]
pub enum LogGroupBy {
    Year,
    Month,
}

/// The day that names the period of `d`: the last day of its year or of its
/// month.
pub open spec fn bucket_key(d: Date, group: LogGroupBy) -> Date {
    match group {
        LogGroupBy::Year => year_end(d.year),
        LogGroupBy::Month => month_end(d.year, d.month),
    }
}

/// The last day of the period of `d` is one that chrono holds.
pub open spec fn bucket_key_in_range(d: Date, group: LogGroupBy) -> bool {
    match group {
        LogGroupBy::Year => year_end_in_range(d.year),
        LogGroupBy::Month => month_end_in_range(d.year, d.month),
    }
}

/// The commits of `cs` whose period is named by `key`, in their order.
pub open spec fn members_of(cs: Seq<Commit>, key: Date, group: LogGroupBy) -> Seq<Commit> {
    cs.filter(|c: Commit| bucket_key(c.spec_date(), group) == key)
}

proof fn lemma_members_push(cs: Seq<Commit>, c: Commit, key: Date, group: LogGroupBy)
    ensures
        members_of(cs.push(c), key, group) == (if bucket_key(c.spec_date(), group) == key {
            members_of(cs, key, group).push(c)
        } else {
            members_of(cs, key, group)
        }),
{
    cs.lemma_filter_push(c, |x: Commit| bucket_key(x.spec_date(), group) == key);
}

proof fn lemma_member_from(cs: Seq<Commit>, key: Date, group: LogGroupBy, i: int)
    requires
        0 <= i < members_of(cs, key, group).len(),
    ensures
        bucket_key(members_of(cs, key, group)[i].spec_date(), group) == key,
        exists|m: int| 0 <= m < cs.len() && cs[m] == members_of(cs, key, group)[i],
{
    let p = |x: Commit| bucket_key(x.spec_date(), group) == key;
    cs.lemma_filter_pred(p, i);
    assert(cs.filter(p).contains(cs.filter(p)[i]));
    cs.lemma_filter_contains_rev(p, cs.filter(p)[i]);
}

/// `out` groups `cs` by period: one entry for each period that holds a
/// commit, in ascending order of its key, with the commits of that period in
/// their order and their combined counts.
pub open spec fn is_grouping(
    out: Seq<(Date, GroupedCommit)>,
    cs: Seq<Commit>,
    group: LogGroupBy,
) -> bool {
    &&& forall|i: int, j: int|
        0 <= i < j < out.len() ==> (#[trigger] out[i]).0.spec_before((#[trigger] out[j]).0)
    &&& forall|i: int|
        0 <= i < out.len() ==> {
            &&& (#[trigger] out[i]).1.spec_commits() == members_of(cs, out[i].0, group)
            &&& out[i].1.spec_commits().len() > 0
            &&& out[i].1.counts_are_sums()
        }
    &&& forall|k: int|
        0 <= k < cs.len() ==> has_key(out, bucket_key((#[trigger] cs[k]).spec_date(), group))
}

/// Some entry of `out` has the key `key`.
pub open spec fn has_key<T>(out: Seq<(Date, T)>, key: Date) -> bool {
    exists|i: int| 0 <= i < out.len() && (#[trigger] out[i]).0 == key
}

/// The number of commits that the entries of `out` hold.
pub open spec fn total_members(out: Seq<(Date, GroupedCommit)>) -> int
    decreases out.len(),
{
    if out.len() == 0 {
        0
    } else {
        total_members(out.drop_last()) + out.last().1.spec_commits().len()
    }
}

/// The number of commits of `cs` that fall in the periods of the entries of `out`.
pub open spec fn members_in(out: Seq<(Date, GroupedCommit)>, cs: Seq<Commit>, group: LogGroupBy) -> int
    decreases out.len(),
{
    if out.len() == 0 {
        0
    } else {
        members_in(out.drop_last(), cs, group) + members_of(cs, out.last().0, group).len()
    }
}

/// The number of entries of `out` with the key `key`.
pub open spec fn key_count(out: Seq<(Date, GroupedCommit)>, key: Date) -> int
    decreases out.len(),
{
    if out.len() == 0 {
        0
    } else {
        key_count(out.drop_last(), key) + if out.last().0 == key {
            1int
        } else {
            0
        }
    }
}

pub open spec fn keys_ascending(out: Seq<(Date, GroupedCommit)>) -> bool {
    forall|i: int, j: int|
        0 <= i < j < out.len() ==> (#[trigger] out[i]).0.spec_before((#[trigger] out[j]).0)
}

proof fn lemma_members_in_push(
    out: Seq<(Date, GroupedCommit)>,
    cs: Seq<Commit>,
    c: Commit,
    group: LogGroupBy,
)
    ensures
        members_in(out, cs.push(c), group) == members_in(out, cs, group) + key_count(
            out,
            bucket_key(c.spec_date(), group),
        ),
    decreases out.len(),
{
    if out.len() > 0 {
        lemma_members_in_push(out.drop_last(), cs, c, group);
        lemma_members_push(cs, c, out.last().0, group);
    }
}

proof fn lemma_key_count_one(out: Seq<(Date, GroupedCommit)>, key: Date)
    requires
        keys_ascending(out),
        has_key(out, key),
    ensures
        key_count(out, key) == 1,
    decreases out.len(),
{
    let rest = out.drop_last();
    assert(keys_ascending(rest)) by {
        assert forall|i: int, j: int| 0 <= i < j < rest.len() implies (#[trigger] rest[i]).0.spec_before(
            (#[trigger] rest[j]).0,
        ) by {
            assert(rest[i] == out[i] && rest[j] == out[j]);
        }
    }
    let i = choose|i: int| 0 <= i < out.len() && (#[trigger] out[i]).0 == key;
    if out.last().0 == key {
        assert(!has_key(rest, key)) by {
            if has_key(rest, key) {
                let m = choose|m: int| 0 <= m < rest.len() && (#[trigger] rest[m]).0 == key;
                assert(out[m].0.spec_before(out[out.len() - 1].0));
            }
        }
        lemma_key_count_zero(rest, key);
    } else {
        assert(rest[i].0 == key);
        lemma_key_count_one(rest, key);
    }
}

proof fn lemma_key_count_zero(out: Seq<(Date, GroupedCommit)>, key: Date)
    requires
        !has_key(out, key),
    ensures
        key_count(out, key) == 0,
    decreases out.len(),
{
    if out.len() > 0 {
        let rest = out.drop_last();
        assert(!has_key(rest, key)) by {
            if has_key(rest, key) {
                let m = choose|m: int| 0 <= m < rest.len() && (#[trigger] rest[m]).0 == key;
                assert(out[m].0 == key);
            }
        }
        assert(out[out.len() - 1].0 != key);
        lemma_key_count_zero(rest, key);
    }
}

proof fn lemma_members_in_prefix(out: Seq<(Date, GroupedCommit)>, cs: Seq<Commit>, group: LogGroupBy, n: int)
    requires
        0 <= n <= cs.len(),
        keys_ascending(out),
        forall|k: int| 0 <= k < cs.len() ==> has_key(out, bucket_key((#[trigger] cs[k]).spec_date(), group)),
    ensures
        members_in(out, cs.take(n), group) == n,
    decreases n,
{
    if n == 0 {
        lemma_members_in_empty(out, cs.take(0), group);
    } else {
        lemma_members_in_prefix(out, cs, group, n - 1);
        assert(cs.take(n) =~= cs.take(n - 1).push(cs[n - 1]));
        lemma_members_in_push(out, cs.take(n - 1), cs[n - 1], group);
        lemma_key_count_one(out, bucket_key(cs[n - 1].spec_date(), group));
    }
}

proof fn lemma_members_in_empty(out: Seq<(Date, GroupedCommit)>, cs: Seq<Commit>, group: LogGroupBy)
    requires
        cs.len() == 0,
    ensures
        members_in(out, cs, group) == 0,
    decreases out.len(),
{
    if out.len() > 0 {
        lemma_members_in_empty(out.drop_last(), cs, group);
        let p = |x: Commit| bucket_key(x.spec_date(), group) == out.last().0;
        cs.lemma_filter_len(p);
    }
}

proof fn lemma_total_members(out: Seq<(Date, GroupedCommit)>, cs: Seq<Commit>, group: LogGroupBy)
    requires
        forall|i: int|
            0 <= i < out.len() ==> (#[trigger] out[i]).1.spec_commits() == members_of(cs, out[i].0, group),
    ensures
        total_members(out) == members_in(out, cs, group),
    decreases out.len(),
{
    if out.len() > 0 {
        let rest = out.drop_last();
        assert forall|i: int| 0 <= i < rest.len() implies (#[trigger] rest[i]).1.spec_commits() == members_of(cs, rest[i].0, group) by {
            assert(rest[i] == out[i]);
        }
        lemma_total_members(rest, cs, group);
        assert(out[out.len() - 1] == out.last());
    }
}

/// Grouping partitions the commits: each commit lies in the entry of its own
/// period and in no other, and the entries hold exactly as many commits as
/// were grouped.
pub proof fn lemma_grouping_partitions(
    out: Seq<(Date, GroupedCommit)>,
    cs: Seq<Commit>,
    group: LogGroupBy,
)
    requires
        is_grouping(out, cs, group),
    ensures
        forall|k: int, i: int|
            0 <= k < cs.len() && 0 <= i < out.len() ==> ((#[trigger] out[i]).1.spec_commits().contains(
                #[trigger] cs[k],
            ) <==> out[i].0 == bucket_key(cs[k].spec_date(), group)),
        forall|k: int|
            0 <= k < cs.len() ==> key_count(out, bucket_key((#[trigger] cs[k]).spec_date(), group))
                == 1,
        total_members(out) == cs.len(),
{
    assert forall|k: int, i: int|
        0 <= k < cs.len() && 0 <= i < out.len() implies ((#[trigger] out[i]).1.spec_commits().contains(
            #[trigger] cs[k],
        ) <==> out[i].0 == bucket_key(cs[k].spec_date(), group)) by {
        let p = |x: Commit| bucket_key(x.spec_date(), group) == out[i].0;
        if out[i].1.spec_commits().contains(cs[k]) {
            let n = choose|n: int| 0 <= n < out[i].1.spec_commits().len() && out[i].1.spec_commits()[n] == cs[k];
            lemma_member_from(cs, out[i].0, group, n);
        }
        if out[i].0 == bucket_key(cs[k].spec_date(), group) {
            cs.lemma_filter_contains(p, k);
        }
    }
    assert forall|k: int| 0 <= k < cs.len() implies key_count(out, bucket_key((#[trigger] cs[k]).spec_date(), group)) == 1 by {
        lemma_key_count_one(out, bucket_key(cs[k].spec_date(), group));
    }
    lemma_members_in_prefix(out, cs, group, cs.len() as int);
    assert(cs.take(cs.len() as int) =~= cs);
    lemma_total_members(out, cs, group);
}

/// The members of the entries of `out`, one entry after the other.
pub open spec fn all_members(out: Seq<(Date, GroupedCommit)>) -> Seq<Commit>
    decreases out.len(),
{
    if out.len() == 0 {
        Seq::empty()
    } else {
        all_members(out.drop_last()) + out.last().1.spec_commits()
    }
}

/// The commits of `cs` in the periods of the entries of `out`, counted with
/// their repetitions.
pub open spec fn members_multiset(
    out: Seq<(Date, GroupedCommit)>,
    cs: Seq<Commit>,
    group: LogGroupBy,
) -> Multiset<Commit>
    decreases out.len(),
{
    if out.len() == 0 {
        Multiset::empty()
    } else {
        members_multiset(out.drop_last(), cs, group).add(
            members_of(cs, out.last().0, group).to_multiset(),
        )
    }
}

proof fn lemma_keys_ascending_drop_last(out: Seq<(Date, GroupedCommit)>)
    requires
        keys_ascending(out),
        out.len() > 0,
    ensures
        keys_ascending(out.drop_last()),
        !has_key(out.drop_last(), out.last().0),
{
    let rest = out.drop_last();
    assert forall|i: int, j: int| 0 <= i < j < rest.len() implies (#[trigger] rest[i]).0.spec_before(
        (#[trigger] rest[j]).0,
    ) by {
        assert(rest[i] == out[i] && rest[j] == out[j]);
    }
    if has_key(rest, out.last().0) {
        let m = choose|m: int| 0 <= m < rest.len() && (#[trigger] rest[m]).0 == out.last().0;
        assert(out[m].0.spec_before(out[out.len() - 1].0));
    }
}

proof fn lemma_members_multiset_push(
    out: Seq<(Date, GroupedCommit)>,
    cs: Seq<Commit>,
    c: Commit,
    group: LogGroupBy,
)
    requires
        keys_ascending(out),
    ensures
        members_multiset(out, cs.push(c), group) == if has_key(
            out,
            bucket_key(c.spec_date(), group),
        ) {
            members_multiset(out, cs, group).insert(c)
        } else {
            members_multiset(out, cs, group)
        },
    decreases out.len(),
{
    broadcast use vstd::seq_lib::group_to_multiset_ensures;
    broadcast use vstd::multiset::group_multiset_axioms;

    let key = bucket_key(c.spec_date(), group);
    if out.len() > 0 {
        let rest = out.drop_last();
        lemma_keys_ascending_drop_last(out);
        lemma_members_multiset_push(rest, cs, c, group);
        lemma_members_push(cs, c, out.last().0, group);
        if out.last().0 == key {
            assert(has_key(out, key)) by {
                assert(out[out.len() - 1].0 == key);
            }
            assert(members_multiset(out, cs.push(c), group) =~= members_multiset(out, cs, group).insert(c));
        } else {
            assert(has_key(out, key) == has_key(rest, key)) by {
                if has_key(out, key) {
                    let m = choose|m: int| 0 <= m < out.len() && (#[trigger] out[m]).0 == key;
                    assert(m < out.len() - 1);
                    assert(rest[m] == out[m]);
                }
                if has_key(rest, key) {
                    let m = choose|m: int| 0 <= m < rest.len() && (#[trigger] rest[m]).0 == key;
                    assert(out[m] == rest[m]);
                }
            }
            if has_key(rest, key) {
                assert(members_multiset(out, cs.push(c), group) =~= members_multiset(out, cs, group).insert(c));
            } else {
                assert(members_multiset(out, cs.push(c), group) =~= members_multiset(out, cs, group));
            }
        }
    }
}

proof fn lemma_members_multiset_empty(
    out: Seq<(Date, GroupedCommit)>,
    cs: Seq<Commit>,
    group: LogGroupBy,
)
    requires
        cs.len() == 0,
    ensures
        members_multiset(out, cs, group) == Multiset::<Commit>::empty(),
    decreases out.len(),
{
    broadcast use vstd::seq_lib::group_to_multiset_ensures;
    broadcast use vstd::multiset::group_multiset_axioms;

    if out.len() > 0 {
        lemma_members_multiset_empty(out.drop_last(), cs, group);
        let p = |x: Commit| bucket_key(x.spec_date(), group) == out.last().0;
        cs.lemma_filter_len(p);
        assert(members_of(cs, out.last().0, group).to_multiset().len() == 0);
        assert(members_multiset(out, cs, group) =~= Multiset::<Commit>::empty());
    }
}

proof fn lemma_members_multiset_prefix(
    out: Seq<(Date, GroupedCommit)>,
    cs: Seq<Commit>,
    group: LogGroupBy,
    n: int,
)
    requires
        0 <= n <= cs.len(),
        keys_ascending(out),
        forall|k: int|
            0 <= k < cs.len() ==> has_key(out, bucket_key((#[trigger] cs[k]).spec_date(), group)),
    ensures
        members_multiset(out, cs.take(n), group) == cs.take(n).to_multiset(),
    decreases n,
{
    broadcast use vstd::seq_lib::group_to_multiset_ensures;
    broadcast use vstd::multiset::group_multiset_axioms;

    if n == 0 {
        lemma_members_multiset_empty(out, cs.take(0), group);
        assert(cs.take(0).to_multiset() =~= Multiset::<Commit>::empty());
    } else {
        lemma_members_multiset_prefix(out, cs, group, n - 1);
        assert(cs.take(n) =~= cs.take(n - 1).push(cs[n - 1]));
        lemma_members_multiset_push(out, cs.take(n - 1), cs[n - 1], group);
    }
}

proof fn lemma_all_members_multiset(
    out: Seq<(Date, GroupedCommit)>,
    cs: Seq<Commit>,
    group: LogGroupBy,
)
    requires
        forall|i: int|
            0 <= i < out.len() ==> (#[trigger] out[i]).1.spec_commits() == members_of(
                cs,
                out[i].0,
                group,
            ),
    ensures
        all_members(out).to_multiset() == members_multiset(out, cs, group),
    decreases out.len(),
{
    broadcast use vstd::seq_lib::group_to_multiset_ensures;
    broadcast use vstd::multiset::group_multiset_axioms;

    if out.len() == 0 {
        assert(all_members(out).to_multiset() =~= Multiset::<Commit>::empty());
    } else {
        let rest = out.drop_last();
        assert forall|i: int| 0 <= i < rest.len() implies (#[trigger] rest[i]).1.spec_commits()
            == members_of(cs, rest[i].0, group) by {
            assert(rest[i] == out[i]);
        }
        lemma_all_members_multiset(rest, cs, group);
        assert(out[out.len() - 1] == out.last());
        vstd::seq_lib::lemma_multiset_commutative(all_members(rest), out.last().1.spec_commits());
    }
}

/// The entries of a grouping, one after the other, hold exactly the grouped
/// commits: the same commits, each as often, in some order.
pub proof fn lemma_grouping_is_permutation(
    out: Seq<(Date, GroupedCommit)>,
    cs: Seq<Commit>,
    group: LogGroupBy,
)
    requires
        is_grouping(out, cs, group),
    ensures
        all_members(out).to_multiset() == cs.to_multiset(),
{
    lemma_members_multiset_prefix(out, cs, group, cs.len() as int);
    assert(cs.take(cs.len() as int) =~= cs);
    lemma_all_members_multiset(out, cs, group);
}

proof fn lemma_members_count(cs: Seq<Commit>, key: Date, group: LogGroupBy, x: Commit)
    ensures
        members_of(cs, key, group).to_multiset().count(x) == if bucket_key(x.spec_date(), group)
            == key {
            cs.to_multiset().count(x)
        } else {
            0
        },
    decreases cs.len(),
{
    broadcast use vstd::seq_lib::group_to_multiset_ensures;
    broadcast use vstd::multiset::group_multiset_axioms;

    if cs.len() == 0 {
        let p = |y: Commit| bucket_key(y.spec_date(), group) == key;
        cs.lemma_filter_len(p);
    } else {
        let rest = cs.drop_last();
        assert(cs =~= rest.push(cs.last()));
        lemma_members_count(rest, key, group, x);
        lemma_members_push(rest, cs.last(), key, group);
    }
}

proof fn lemma_members_same_multiset(a: Seq<Commit>, b: Seq<Commit>, key: Date, group: LogGroupBy)
    requires
        a.to_multiset() == b.to_multiset(),
    ensures
        members_of(a, key, group).to_multiset() == members_of(b, key, group).to_multiset(),
{
    assert forall|x: Commit| #[trigger] members_of(a, key, group).to_multiset().count(x)
        == members_of(b, key, group).to_multiset().count(x) by {
        lemma_members_count(a, key, group, x);
        lemma_members_count(b, key, group, x);
    }
    assert(members_of(a, key, group).to_multiset() =~= members_of(b, key, group).to_multiset());
}

/// The keys of the entries of `out`, in order.
pub open spec fn keys_of(out: Seq<(Date, GroupedCommit)>) -> Seq<Date> {
    Seq::new(out.len(), |i: int| out[i].0)
}

pub open spec fn dates_ascending(ks: Seq<Date>) -> bool {
    forall|i: int, j: int| 0 <= i < j < ks.len() ==> (#[trigger] ks[i]).spec_before(#[trigger] ks[j])
}

proof fn lemma_ascending_same_keys(a: Seq<Date>, b: Seq<Date>)
    requires
        dates_ascending(a),
        dates_ascending(b),
        forall|k: Date| a.contains(k) <==> b.contains(k),
    ensures
        a == b,
    decreases a.len(),
{
    if a.len() == 0 {
        if b.len() > 0 {
            assert(b.contains(b[0]));
        }
        assert(a =~= b);
    } else {
        assert(a.contains(a.last()));
        assert(b.len() > 0);
        assert(b.contains(b.last()));
        let la = a.last();
        let lb = b.last();
        let ia = choose|i: int| 0 <= i < a.len() && a[i] == lb;
        let ib = choose|i: int| 0 <= i < b.len() && b[i] == la;
        assert(la == lb) by {
            if la != lb {
                assert(ia < a.len() - 1);
                assert(ib < b.len() - 1);
                assert(lb.spec_before(la));
                assert(la.spec_before(lb));
            }
        }
        let a2 = a.drop_last();
        let b2 = b.drop_last();
        assert forall|k: Date| a2.contains(k) <==> b2.contains(k) by {
            if a2.contains(k) {
                let i = choose|i: int| 0 <= i < a2.len() && a2[i] == k;
                assert(a[i].spec_before(a[a.len() - 1]));
                assert(a.contains(k));
                let j = choose|j: int| 0 <= j < b.len() && b[j] == k;
                assert(j != b.len() - 1);
                assert(b2[j] == k);
            }
            if b2.contains(k) {
                let i = choose|i: int| 0 <= i < b2.len() && b2[i] == k;
                assert(b[i].spec_before(b[b.len() - 1]));
                assert(b.contains(k));
                let j = choose|j: int| 0 <= j < a.len() && a[j] == k;
                assert(j != a.len() - 1);
                assert(a2[j] == k);
            }
        }
        lemma_ascending_same_keys(a2, b2);
        assert(a =~= a2.push(la));
        assert(b =~= b2.push(lb));
    }
}

proof fn lemma_grouping_has_key(out: Seq<(Date, GroupedCommit)>, cs: Seq<Commit>, group: LogGroupBy, key: Date)
    requires
        is_grouping(out, cs, group),
    ensures
        keys_of(out).contains(key) <==> exists|k: int|
            0 <= k < cs.len() && bucket_key((#[trigger] cs[k]).spec_date(), group) == key,
{
    if keys_of(out).contains(key) {
        let i = choose|i: int| 0 <= i < keys_of(out).len() && keys_of(out)[i] == key;
        assert(out[i].1.spec_commits().len() > 0);
        lemma_member_from(cs, key, group, 0);
    }
    if exists|k: int| 0 <= k < cs.len() && bucket_key((#[trigger] cs[k]).spec_date(), group) == key {
        let k = choose|k: int| 0 <= k < cs.len() && bucket_key((#[trigger] cs[k]).spec_date(), group) == key;
        assert(has_key(out, bucket_key(cs[k].spec_date(), group)));
        let i = choose|i: int| 0 <= i < out.len() && (#[trigger] out[i]).0 == key;
        assert(keys_of(out)[i] == key);
    }
}

/// Grouping does not depend on the order of the commits: two groupings of
/// the same commits, in any order, have the same periods in the same order,
/// and entry by entry the same counts.
pub proof fn lemma_grouping_order_independent(
    out1: Seq<(Date, GroupedCommit)>,
    cs1: Seq<Commit>,
    out2: Seq<(Date, GroupedCommit)>,
    cs2: Seq<Commit>,
    group: LogGroupBy,
)
    requires
        is_grouping(out1, cs1, group),
        is_grouping(out2, cs2, group),
        cs1.to_multiset() == cs2.to_multiset(),
    ensures
        out1.len() == out2.len(),
        forall|i: int|
            0 <= i < out1.len() ==> {
                &&& (#[trigger] out1[i]).0 == out2[i].0
                &&& out1[i].1.spec_stat().spec_insertion() == out2[i].1.spec_stat().spec_insertion()
                &&& out1[i].1.spec_stat().spec_deletion() == out2[i].1.spec_stat().spec_deletion()
                &&& out1[i].1.spec_stat().spec_change_delta()
                    == out2[i].1.spec_stat().spec_change_delta()
            },
{
    broadcast use vstd::seq_lib::group_to_multiset_ensures;

    let k1 = keys_of(out1);
    let k2 = keys_of(out2);
    assert forall|key: Date| k1.contains(key) <==> k2.contains(key) by {
        lemma_grouping_has_key(out1, cs1, group, key);
        lemma_grouping_has_key(out2, cs2, group, key);
        if exists|k: int| 0 <= k < cs1.len() && bucket_key((#[trigger] cs1[k]).spec_date(), group) == key {
            let k = choose|k: int| 0 <= k < cs1.len() && bucket_key((#[trigger] cs1[k]).spec_date(), group) == key;
            assert(cs1.contains(cs1[k]));
            assert(cs2.to_multiset().count(cs1[k]) > 0);
            let m = choose|m: int| 0 <= m < cs2.len() && cs2[m] == cs1[k];
            assert(bucket_key(cs2[m].spec_date(), group) == key);
        }
        if exists|k: int| 0 <= k < cs2.len() && bucket_key((#[trigger] cs2[k]).spec_date(), group) == key {
            let k = choose|k: int| 0 <= k < cs2.len() && bucket_key((#[trigger] cs2[k]).spec_date(), group) == key;
            assert(cs2.contains(cs2[k]));
            assert(cs1.to_multiset().count(cs2[k]) > 0);
            let m = choose|m: int| 0 <= m < cs1.len() && cs1[m] == cs2[k];
            assert(bucket_key(cs1[m].spec_date(), group) == key);
        }
    }
    assert(dates_ascending(k1)) by {
        assert forall|i: int, j: int| 0 <= i < j < k1.len() implies (#[trigger] k1[i]).spec_before(#[trigger] k1[j]) by {
            assert(out1[i].0.spec_before(out1[j].0));
        }
    }
    assert(dates_ascending(k2)) by {
        assert forall|i: int, j: int| 0 <= i < j < k2.len() implies (#[trigger] k2[i]).spec_before(#[trigger] k2[j]) by {
            assert(out2[i].0.spec_before(out2[j].0));
        }
    }
    lemma_ascending_same_keys(k1, k2);
    assert forall|i: int| 0 <= i < out1.len() implies {
        &&& (#[trigger] out1[i]).0 == out2[i].0
        &&& out1[i].1.spec_stat().spec_insertion() == out2[i].1.spec_stat().spec_insertion()
        &&& out1[i].1.spec_stat().spec_deletion() == out2[i].1.spec_stat().spec_deletion()
        &&& out1[i].1.spec_stat().spec_change_delta() == out2[i].1.spec_stat().spec_change_delta()
    } by {
        assert(k1[i] == k2[i]);
        lemma_members_same_multiset(cs1, cs2, out1[i].0, group);
        crate::commit::lemma_group_counts_any_order(out1[i].1, out2[i].1);
    }
}

/// The keys of a grouping are distinct.
pub proof fn lemma_grouping_keys_distinct(
    out: Seq<(Date, GroupedCommit)>,
    cs: Seq<Commit>,
    group: LogGroupBy,
)
    requires
        is_grouping(out, cs, group),
    ensures
        forall|i: int, j: int|
            0 <= i < out.len() && 0 <= j < out.len() && i != j ==> (#[trigger] out[i]).0 != (#[trigger] out[j]).0,
{
    assert forall|i: int, j: int|
        0 <= i < out.len() && 0 <= j < out.len() && i != j implies (#[trigger] out[i]).0 != (#[trigger] out[j]).0 by {
        if i < j {
            assert(out[i].0.spec_before(out[j].0));
        } else {
            assert(out[j].0.spec_before(out[i].0));
        }
    }
}

/// The commits grouped by period, in ascending order of the period's last
/// day.
pub fn group_commits(commits: &Vec<Commit>, group: &LogGroupBy) -> (r: Vec<(Date, GroupedCommit)>)
    requires
        forall|k: int|
            0 <= k < commits@.len() ==> bucket_key_in_range(
                (#[trigger] commits@[k]).spec_date(),
                *group,
            ),
    ensures
        is_grouping(r@, commits@, *group),
{
    let ghost cs = commits@;
    let mut out: Vec<(Date, GroupedCommit)> = Vec::new();
    let mut k: usize = 0;
    while k < commits.len()
        invariant
            k <= commits.len(),
            cs == commits@,
            forall|m: int|
                0 <= m < cs.len() ==> bucket_key_in_range(
                    (#[trigger] cs[m]).spec_date(),
                    *group,
                ),
            is_grouping(out@, cs.take(k as int), *group),
        decreases commits.len() - k,
    {
        let c = &commits[k];
        let key = LogParser::create_hash_key(c, group);
        let ghost before = out@;
        let ghost prefix = cs.take(k as int);
        let ghost next = cs.take(k + 1);
        assert(next =~= prefix.push(*c));
        let mut j: usize = 0;
        while j < out.len() && out[j].0.is_before(&key)
            invariant
                j <= out.len(),
                out@ == before,
                forall|m: int| 0 <= m < j ==> (#[trigger] out@[m]).0.spec_before(key),
            decreases out.len() - j,
        {
            j = j + 1;
        }
        if j < out.len() && out[j].0 == key {
            let entry = out.remove(j);
            let mut grouped = entry.1;
            let updated = grouped.add_commits(c.clone());
            out.insert(j, (entry.0, updated));
            assert(out@ == before.update(j as int, (key, updated)));
            assert forall|a: int, b: int| 0 <= a < b < out@.len() implies (#[trigger] out@[a]).0.spec_before((#[trigger] out@[b]).0) by {
                assert(out@[a].0 == before[a].0);
                assert(out@[b].0 == before[b].0);
            }
            assert forall|i: int| 0 <= i < out@.len() implies {
                &&& (#[trigger] out@[i]).1.spec_commits() == members_of(next, out@[i].0, *group)
                &&& out@[i].1.spec_commits().len() > 0
                &&& out@[i].1.counts_are_sums()
            } by {
                lemma_members_push(prefix, *c, out@[i].0, *group);
            }
            assert forall|m: int| 0 <= m < next.len() implies has_key(
                out@,
                bucket_key((#[trigger] next[m]).spec_date(), *group),
            ) by {
                if m < k {
                    assert(next[m] == prefix[m]);
                    assert(has_key(before, bucket_key(prefix[m].spec_date(), *group)));
                    let i = choose|i: int| 0 <= i < before.len() && (#[trigger] before[i]).0 == bucket_key(
                        prefix[m].spec_date(), *group);
                    assert(out@[i].0 == before[i].0);
                } else {
                    assert(out@[j as int].0 == key);
                }
            }
            assert(is_grouping(out@, next, *group));
        } else {
            let mut members: Vec<Commit> = Vec::new();
            members.push(c.clone());
            let fresh = GroupedCommit::new(members);
            out.insert(j, (key, fresh));
            assert(out@ == before.insert(j as int, (key, fresh)));
            assert(members_of(prefix, key, *group) =~= Seq::<Commit>::empty()) by {
                if members_of(prefix, key, *group).len() > 0 {
                    let x = members_of(prefix, key, *group)[0];
                    lemma_member_from(prefix, key, *group, 0);
                    let m = choose|m: int| 0 <= m < prefix.len() && prefix[m] == x;
                    assert(has_key(before, bucket_key(prefix[m].spec_date(), *group)));
                    let i = choose|i: int| 0 <= i < before.len() && (#[trigger] before[i]).0 == bucket_key(
                        prefix[m].spec_date(), *group);
                    assert(before[i].0 == key);
                    if i < j {
                        assert(before[i].0.spec_before(key));
                    } else if i == j {
                    } else {
                        assert(before[j as int].0.spec_before(before[i].0));
                    }
                }
            }
            assert forall|i: int| 0 <= i < out@.len() implies {
                &&& (#[trigger] out@[i]).1.spec_commits() == members_of(next, out@[i].0, *group)
                &&& out@[i].1.spec_commits().len() > 0
                &&& out@[i].1.counts_are_sums()
            } by {
                lemma_members_push(prefix, *c, out@[i].0, *group);
                if i == j {
                    assert(members_of(prefix, key, *group).push(*c) =~= seq![*c]);
                } else if i < j {
                    assert(before[i].0.spec_before(key));
                } else {
                    assert(out@[i] == before[i - 1]);
                    if j < before.len() {
                        assert(before[j as int].0 != key);
                        assert(!before[j as int].0.spec_before(key));
                        if i - 1 > j {
                            assert(before[j as int].0.spec_before(before[i - 1].0));
                        }
                    }
                }
            }
            assert forall|a: int, b: int| 0 <= a < b < out@.len() implies (#[trigger] out@[a]).0.spec_before((#[trigger] out@[b]).0) by {
                if j < before.len() {
                    assert(before[j as int].0 != key);
                    assert(!before[j as int].0.spec_before(key));
                }
                if b > j && b - 1 > j && j < before.len() {
                    assert(before[j as int].0.spec_before(before[b - 1].0));
                }
                if a > j && b > j {
                    assert(before[a - 1].0.spec_before(before[b - 1].0));
                }
            }
            assert forall|m: int| 0 <= m < next.len() implies has_key(
                out@,
                bucket_key((#[trigger] next[m]).spec_date(), *group),
            ) by {
                if m < k {
                    assert(next[m] == prefix[m]);
                    assert(has_key(before, bucket_key(prefix[m].spec_date(), *group)));
                    let i = choose|i: int| 0 <= i < before.len() && (#[trigger] before[i]).0 == bucket_key(
                        prefix[m].spec_date(), *group);
                    if i < j {
                        assert(out@[i] == before[i]);
                    } else {
                        assert(out@[i + 1] == before[i]);
                    }
                } else {
                    assert(out@[j as int].0 == key);
                }
            }
            assert(is_grouping(out@, next, *group));
        }
        k = k + 1;
    }
    assert(cs.take(k as int) =~= cs);
    out
}

/// The commits that a log text describes, and their combined line counts.
#[derive(Debug)]
pub struct LogParser {
    commits: Vec<Commit>,
    total: Stat,
    date_errors: Vec<String>,
}

impl LogParser {
    #[verifier::type_invariant]
    spec fn total_is_sum(self) -> bool {
        &&& self.total.spec_insertion() == clamp_count(sum_counts(self.commits@).0)
        &&& self.total.spec_deletion() == clamp_count(sum_counts(self.commits@).1)
    }

    /// The date fields of the chunks whose date does not parse, in order.
    pub closed spec fn spec_date_errors(self) -> Seq<Seq<char>> {
        strings_view(self.date_errors@)
    }

    pub closed spec fn spec_commits(self) -> Seq<Commit> {
        self.commits@
    }

    pub closed spec fn spec_total(self) -> Stat {
        self.total
    }

    /// The pieces of the log text between the separators, each trimmed; the
    /// pieces that are empty after trimming are left out.
    pub fn split_stdout_to_commits(stdout: &str) -> (r: Vec<Vec<char>>)
        ensures
            chunk_views(r@) == log_chunks(stdout@),
    {
        let t = chars_of(stdout);
        let sep = separator_chars();
        let mut out: Vec<Vec<char>> = Vec::new();
        let mut i: usize = 0;
        loop
            invariant_except_break
                chunk_views(out@) + nonempty(trim_all(split_from(t@, sep@, i as int)))
                    == log_chunks(stdout@),
            invariant
                i <= t.len(),
                t@ == stdout@,
                sep@ == commit_separator(),
            ensures
                chunk_views(out@) == log_chunks(stdout@),
            decreases t.len() - i,
        {
            let ghost before = chunk_views(out@);
            let ghost rest = split_from(t@, sep@, i as int);
            let end = match find(&t, &sep, i) {
                Some(j) => j,
                None => t.len(),
            };
            proof {
                crate::text::lemma_find_from_bounds(t@, sep@, i as int);
            }
            let piece = copy_range(&t, i, end);
            let trimmed = trim_chars(&piece);
            let ghost x = trim(t@.subrange(i as int, end as int));
            let ghost next = match crate::text::find_from(t@, sep@, i as int) {
                Some(j) => split_from(t@, sep@, j + sep.len()),
                None => Seq::<Seq<char>>::empty(),
            };
            assert(rest == seq![t@.subrange(i as int, end as int)] + next);
            assert(trim_all(rest) =~= seq![x] + trim_all(next));
            proof {
                lemma_nonempty_cons(x, trim_all(next));
            }
            if trimmed.len() > 0 {
                out.push(trimmed);
                assert(chunk_views(out@) =~= before.push(x));
                assert(chunk_views(out@) + nonempty(trim_all(next)) =~= before + nonempty(
                    trim_all(rest),
                ));
            } else {
                assert(chunk_views(out@) =~= before);
            }
            match find(&t, &sep, i) {
                Some(j) => {
                    i = j + sep.len();
                },
                None => {
                    assert(trim_all(next) =~= Seq::<Seq<char>>::empty());
                    assert(nonempty(trim_all(next)) =~= Seq::<Seq<char>>::empty()) by {
                        reveal(Seq::filter);
                    }
                    assert(chunk_views(out@) =~= chunk_views(out@) + nonempty(trim_all(next)));
                    break ;
                },
            }
        }
        out
    }

    /// The commits that the chunks describe, in order; a chunk that describes
    /// none is passed over.
    /// The date fields that do not parse come second, in chunk order.
    fn parse(raw_commits: &Vec<Vec<char>>) -> (r: (Vec<Commit>, Vec<String>))
        ensures
            views(r.0@) == chunks_commits(chunk_views(raw_commits@)),
            strings_view(r.1@) == failed_dates(chunk_views(raw_commits@)),
    {
        let mut commits: Vec<Commit> = Vec::new();
        let mut bad_dates: Vec<String> = Vec::new();
        let ghost cs = chunk_views(raw_commits@);
        let mut k: usize = 0;
        while k < raw_commits.len()
            invariant
                k <= raw_commits.len(),
                cs == chunk_views(raw_commits@),
                views(commits@) == chunks_commits(cs.take(k as int)),
                strings_view(bad_dates@) == failed_dates(cs.take(k as int)),
            decreases raw_commits.len() - k,
        {
            let ghost before = views(commits@);
            let ghost before_bad = strings_view(bad_dates@);
            assert(cs.take(k + 1).drop_last() =~= cs.take(k as int));
            let (commit, bad) = parse_chunk(&raw_commits[k]);
            match commit {
                Some(c) => {
                    commits.push(c);
                },
                None => {},
            }
            assert(views(commits@) =~= before + option_seq(chunk_commit(cs[k as int])));
            match bad {
                Some(d) => {
                    bad_dates.push(d);
                },
                None => {},
            }
            assert(strings_view(bad_dates@) =~= before_bad + option_seq(chunk_bad_date(cs[k as int])));
            k = k + 1;
        }
        assert(cs.take(k as int) =~= cs);
        (commits, bad_dates)
    }

    /// The last day of the period of the commit.
    fn create_hash_key(commit: &Commit, group: &LogGroupBy) -> (r: Date)
        requires
            bucket_key_in_range(commit.spec_date(), *group),
        ensures
            r == bucket_key(commit.spec_date(), *group),
    {
        let date = commit.get_date();
        match group {
            LogGroupBy::Year => last_day_of_year(date.year),
            LogGroupBy::Month => last_day_of_month(date.year, date.month),
        }
    }

    /// The commits grouped by period, in ascending order of the period's last
    /// day.
    pub fn group_by(&self, group: &LogGroupBy) -> (r: Vec<(Date, GroupedCommit)>)
        requires
            forall|k: int|
                0 <= k < self.spec_commits().len() ==> bucket_key_in_range(
                    (#[trigger] self.spec_commits()[k]).spec_date(),
                    *group,
                ),
        ensures
            is_grouping(r@, self.spec_commits(), *group),
    {
        assert(self.commits@ == self.spec_commits());
        group_commits(&self.commits, group)
    }

    /// The arguments that make the history tool print the log in the layout
    /// that this parser reads: a summary line per commit, no merges, and a
    /// header `<<COMMIT>>|<hash>|<date>` before each commit.
    pub fn get_git_log_args() -> (r: [String; 3])
        ensures
            r[0]@ == "--shortstat"@,
            r[1]@ == "--no-merges"@,
            r[2]@ == "--pretty=format:"@ + commit_separator() + "|%H|%aI"@,
    {
        proof {
            reveal_strlit("--pretty=format:<<COMMIT>>|%H|%aI");
            reveal_strlit("--pretty=format:");
            reveal_strlit("|%H|%aI");
        }
        let r = [
            "--shortstat".to_string(),
            "--no-merges".to_string(),
            "--pretty=format:<<COMMIT>>|%H|%aI".to_string(),
        ];
        assert(r[2]@ =~= "--pretty=format:"@ + commit_separator() + "|%H|%aI"@);
        r
    }

    /// The counts of inserted and deleted lines that a summary line gives.
    pub fn parse_insertions_deletions(stats: &str) -> (r: (u32, u32))
        ensures
            r == (clause_count(stats@, true), clause_count(stats@, false)),
    {
        summary_counts(&chars_of(stats))
    }

    /// The date fields that did not parse, one for each chunk that was
    /// passed over for it, in order.
    pub fn get_date_errors(&self) -> (r: &Vec<String>)
        ensures
            strings_view(r@) == self.spec_date_errors(),
    {
        &self.date_errors
    }

    /// The commits that the log text describes, in order.
    pub fn get_commits(&self) -> (r: &Vec<Commit>)
        ensures
            r@ == self.spec_commits(),
    {
        &self.commits
    }
}

impl<'a> vstd::std_specs::convert::FromSpecImpl<&'a str> for LogParser {
    open spec fn obeys_from_spec() -> bool {
        false
    }

    open spec fn from_spec(v: &'a str) -> LogParser {
        arbitrary()
    }
}

impl<'a> From<&'a str> for LogParser {
    fn from(stdout: &'a str) -> (r: LogParser)
        ensures
            views(r.spec_commits()) == log_commits(stdout@),
            r.spec_total().spec_insertion() == clamp_count(sum_counts(r.spec_commits()).0),
            r.spec_total().spec_deletion() == clamp_count(sum_counts(r.spec_commits()).1),
            r.spec_total().spec_change_delta() == r.spec_total().spec_insertion()
                - r.spec_total().spec_deletion(),
            r.spec_date_errors() == failed_dates(log_chunks(stdout@)),
    {
        let raw_commits = LogParser::split_stdout_to_commits(stdout);
        let (commits, date_errors) = LogParser::parse(&raw_commits);
        let group = GroupedCommit::new(commits);
        let total = *group.get_stat();
        let commits = group.into_commits();
        LogParser { commits, total, date_errors }
    }
}

impl StateAccess for LogParser {
    open spec fn stat_of(&self) -> Stat {
        self.spec_total()
    }

    fn get_stat(&self) -> (r: &Stat) {
        &self.total
    }
}

} // verus!
