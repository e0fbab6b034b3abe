use git_stats::commit::{Commit, GroupedCommit};
use git_stats::date::Date;
use git_stats::parser::{LogGroupBy, LogParser};
use git_stats::stat::StateAccess;

const STDOUT: &str =
    "<<COMMIT>>|fc557a8860c77a7d9f762c4d64bcc7b1e9352356|2024-04-08T11:24:15+09:00
 1 file changed, 6 deletions(-)

<<COMMIT>>|88521e6ea795fe68b7b8f0389f31c725da768511|2024-04-08T11:24:01+09:00
 1 file changed, 44 insertions(+)

<<COMMIT>>|9ce6f7bba98296aaf20cd05e51f645e16e2ceb30|2024-04-03T22:05:08+09:00
 2 files changed, 6 insertions(+), 44 deletions(-)

<<COMMIT>>|d69fd5b443b12f48380a1752b835222986094eb7|2024-05-02T19:02:27+09:00
 1 file changed, 1 insertion(+), 1 deletion(-)

<<COMMIT>>|a3a975eedb3fffe82a079f8ac5301c445f1a5056|2022-06-02T19:02:27+09:00
 1 file changed, 66 insertions(+), 2 deletions(-)
";

fn date(year: i32, month: u32, day: u32) -> Date {
    Date { year, month, day }
}

#[test]
fn parses_stdout() {
    let parser = LogParser::from(STDOUT);
    assert_eq!(parser.get_commits().len(), 5);
}

#[test]
fn empty_stat_skipped() {
    let stdout = "<<COMMIT>>|82b3ebd9502410c9d74e57a6d677041055decbfd|2024-03-12T12:06:54+09:00
<<COMMIT>>|0bdf1fb931b852af391aa4d1e1341ef38dc7da4b|2024-03-12T11:39:19+09:00
 1 file changed, 72 insertions(+), 3 deletions(-)";
    let parser = LogParser::from(stdout);
    assert_eq!(parser.get_commits().len(), 1);
}

#[test]
fn group_by_month() {
    let parser = LogParser::from(STDOUT);
    let out = parser.group_by(&LogGroupBy::Month);
    assert_eq!(out.len(), 3);

    let test_cases = [
        ((2022, 6, 30), (66, 2)),
        ((2024, 4, 30), (50, 50)),
        ((2024, 5, 31), (1, 1)),
    ];

    for (index, (d, (insertion, deletion))) in test_cases.iter().enumerate() {
        let naive_date = date(d.0, d.1, d.2);

        assert_eq!(out[index].0, naive_date);
        assert_eq!(out[index].1.get_insertion(), *insertion);
        assert_eq!(out[index].1.get_deletion(), *deletion);
    }
}

#[test]
fn group_by_year() {
    let parser = LogParser::from(STDOUT);
    let out = parser.group_by(&LogGroupBy::Year);
    assert_eq!(out.len(), 2);

    let test_cases = [((2022, 12, 31), (66, 2)), ((2024, 12, 31), (51, 51))];

    for (index, (d, (insertion, deletion))) in test_cases.iter().enumerate() {
        let naive_date = date(d.0, d.1, d.2);

        assert_eq!(out[index].0, naive_date);
        assert_eq!(out[index].1.get_insertion(), *insertion);
        assert_eq!(out[index].1.get_deletion(), *deletion);
    }
}

#[test]
fn parsed_commits_keep_hash_date_and_counts() {
    let parser = LogParser::from(STDOUT);
    let commits = parser.get_commits();
    assert_eq!(commits[2].get_hash(), "9ce6f7bba98296aaf20cd05e51f645e16e2ceb30");
    assert_eq!(commits[2].get_date(), date(2024, 4, 3));
    assert_eq!(commits[2].get_insertion(), 6);
    assert_eq!(commits[2].get_deletion(), 44);
    assert_eq!(commits[2].get_change_delta(), -38);
    assert_eq!(commits[0].get_insertion(), 0);
    assert_eq!(commits[0].get_deletion(), 6);
}

#[test]
fn local_date_of_the_offset_is_kept() {
    let stdout = "<<COMMIT>>|abc|2024-03-31T23:30:00-05:00\n 1 file changed, 2 insertions(+)";
    let parser = LogParser::from(stdout);
    assert_eq!(parser.get_commits()[0].get_date(), date(2024, 3, 31));
}

#[test]
fn parser_totals_sum_all_commits() {
    let parser = LogParser::from(STDOUT);
    assert_eq!(parser.get_insertion(), 117);
    assert_eq!(parser.get_deletion(), 53);
    assert_eq!(parser.get_change_delta(), 64);
}

#[test]
fn chunk_with_bad_date_is_dropped_alone() {
    let stdout = "<<COMMIT>>|aaa|2024-04-08T11:24:15+09:00
 1 file changed, 3 insertions(+)
<<COMMIT>>|bbb|not-a-date
 1 file changed, 100 insertions(+)
<<COMMIT>>|ccc|2024-02-30T10:00:00+00:00
 1 file changed, 7 insertions(+)
<<COMMIT>>|ddd|2023-01-15T08:00:00+00:00
 2 files changed, 5 deletions(-)";
    let parser = LogParser::from(stdout);
    let commits = parser.get_commits();
    assert_eq!(commits.len(), 2);
    assert_eq!(commits[0].get_hash(), "aaa");
    assert_eq!(commits[0].get_insertion(), 3);
    assert_eq!(commits[1].get_hash(), "ddd");
    assert_eq!(commits[1].get_deletion(), 5);
    assert_eq!(
        parser.get_date_errors(),
        &vec!["not-a-date".to_string(), "2024-02-30T10:00:00+00:00".to_string()]
    );
}

#[test]
fn empty_pieces_are_discarded() {
    let chunks = LogParser::split_stdout_to_commits(STDOUT);
    assert_eq!(chunks.len(), 5);
    let first: String = chunks[0].iter().collect();
    assert_eq!(
        first,
        "|fc557a8860c77a7d9f762c4d64bcc7b1e9352356|2024-04-08T11:24:15+09:00\n 1 file changed, 6 deletions(-)"
    );
    let blank = LogParser::split_stdout_to_commits("  \n<<COMMIT>>\n\n<<COMMIT>>|x|y\n");
    assert_eq!(blank.len(), 1);
    assert_eq!(blank[0], vec!['|', 'x', '|', 'y']);
    assert_eq!(LogParser::split_stdout_to_commits("").len(), 0);
}

#[test]
fn well_formed_log_reports_no_date_errors() {
    let parser = LogParser::from(STDOUT);
    assert!(parser.get_date_errors().is_empty());
}

#[test]
fn header_without_date_field_is_dropped() {
    let stdout = "<<COMMIT>>|onlyhash\n 1 file changed, 1 insertion(+)\n<<COMMIT>>no bar here\n 1 file changed";
    let parser = LogParser::from(stdout);
    assert_eq!(parser.get_commits().len(), 0);
}

#[test]
fn commit_without_summary_line_is_dropped() {
    let stdout = "<<COMMIT>>|e1|2024-03-12T12:06:54+09:00\n\n<<COMMIT>>|e2|2024-03-12T12:06:54+09:00";
    let parser = LogParser::from(stdout);
    assert_eq!(parser.get_commits().len(), 0);
}

#[test]
fn empty_log_gives_no_commits() {
    let parser = LogParser::from("");
    assert_eq!(parser.get_commits().len(), 0);
    assert_eq!(parser.group_by(&LogGroupBy::Month).len(), 0);
    assert_eq!(parser.get_change_delta(), 0);
}

#[test]
fn summary_line_clauses() {
    assert_eq!(
        LogParser::parse_insertions_deletions(" 1 file changed, 1 insertion(+), 1 deletion(-)"),
        (1, 1)
    );
    assert_eq!(
        LogParser::parse_insertions_deletions(" 1 file changed, 6 deletions(-)"),
        (0, 6)
    );
    assert_eq!(
        LogParser::parse_insertions_deletions(" 3 files changed, 120 insertions(+)"),
        (120, 0)
    );
    assert_eq!(LogParser::parse_insertions_deletions(""), (0, 0));
}

#[test]
fn summary_number_too_large_counts_zero() {
    assert_eq!(
        LogParser::parse_insertions_deletions(" 1 file changed, 99999999999 insertions(+), 4 deletions(-)"),
        (0, 4)
    );
    assert_eq!(
        LogParser::parse_insertions_deletions("4294967295 insertions(+)"),
        (u32::MAX, 0)
    );
}

#[test]
fn git_log_args_select_the_parsed_layout() {
    let args = LogParser::get_git_log_args();
    assert_eq!(args[0], "--shortstat");
    assert_eq!(args[1], "--no-merges");
    assert_eq!(args[2], "--pretty=format:<<COMMIT>>|%H|%aI");
}

#[test]
fn group_output_is_strictly_ascending() {
    let parser = LogParser::from(STDOUT);
    for group in [LogGroupBy::Year, LogGroupBy::Month] {
        let out = parser.group_by(&group);
        for w in out.windows(2) {
            let (a, b) = (w[0].0, w[1].0);
            assert!((a.year, a.month, a.day) < (b.year, b.month, b.day));
        }
    }
}

#[test]
fn grouping_partitions_the_commits() {
    let parser = LogParser::from(STDOUT);
    let out = parser.group_by(&LogGroupBy::Month);
    let total: usize = out.iter().map(|(_, g)| g.get_commits().len()).sum();
    assert_eq!(total, parser.get_commits().len());
    assert_eq!(out[1].1.get_commits().len(), 3);
    assert_eq!(out[1].1.get_commits()[0].get_hash(), "fc557a8860c77a7d9f762c4d64bcc7b1e9352356");
    assert_eq!(out[1].1.get_commits()[2].get_hash(), "9ce6f7bba98296aaf20cd05e51f645e16e2ceb30");
    assert_eq!(out[1].1.get_change_delta(), 0);
}

#[test]
fn group_counts_do_not_depend_on_order() {
    let a = Commit::new("a".to_string(), date(2024, 4, 8), 0, 6);
    let b = Commit::new("b".to_string(), date(2024, 4, 8), 44, 0);
    let c = Commit::new("c".to_string(), date(2024, 4, 3), 6, 44);
    let one = GroupedCommit::new(vec![a.clone(), b.clone(), c.clone()]);
    let two = GroupedCommit::new(vec![c, a, b]);
    assert_eq!(one.get_insertion(), 50);
    assert_eq!(one.get_deletion(), 50);
    assert_eq!(one.get_insertion(), two.get_insertion());
    assert_eq!(one.get_deletion(), two.get_deletion());
    assert_eq!(one.get_change_delta(), two.get_change_delta());
}

#[test]
fn add_commits_returns_a_larger_group() {
    let mut g = GroupedCommit::default();
    let h = g.add_commits(Commit::new("x".to_string(), date(2020, 1, 1), 2, 9));
    assert_eq!(g.get_commits().len(), 0);
    assert_eq!(h.get_commits().len(), 1);
    assert_eq!(h.get_change_delta(), -7);
}

#[test]
fn grouping_ignores_commit_order() {
    let reordered = "<<COMMIT>>|a3a975eedb3fffe82a079f8ac5301c445f1a5056|2022-06-02T19:02:27+09:00
 1 file changed, 66 insertions(+), 2 deletions(-)
<<COMMIT>>|d69fd5b443b12f48380a1752b835222986094eb7|2024-05-02T19:02:27+09:00
 1 file changed, 1 insertion(+), 1 deletion(-)
<<COMMIT>>|9ce6f7bba98296aaf20cd05e51f645e16e2ceb30|2024-04-03T22:05:08+09:00
 2 files changed, 6 insertions(+), 44 deletions(-)
<<COMMIT>>|fc557a8860c77a7d9f762c4d64bcc7b1e9352356|2024-04-08T11:24:15+09:00
 1 file changed, 6 deletions(-)
<<COMMIT>>|88521e6ea795fe68b7b8f0389f31c725da768511|2024-04-08T11:24:01+09:00
 1 file changed, 44 insertions(+)";
    let one = LogParser::from(STDOUT).group_by(&LogGroupBy::Month);
    let two = LogParser::from(reordered).group_by(&LogGroupBy::Month);
    assert_eq!(one.len(), two.len());
    for (a, b) in one.iter().zip(two.iter()) {
        assert_eq!(a.0, b.0);
        assert_eq!(a.1.get_insertion(), b.1.get_insertion());
        assert_eq!(a.1.get_deletion(), b.1.get_deletion());
        assert_eq!(a.1.get_change_delta(), b.1.get_change_delta());
    }
}
