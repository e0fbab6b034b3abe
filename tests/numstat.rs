use git_stats::commits::Commits;
use git_stats::date::Date;

#[test]
fn per_file_rows_are_summed() {
    let chunk = "abc123|2024-04-08T11:24:15+09:00\n10\t2\tsrc/a.rs\n-\t-\tlogo.png\n3 1 b.rs";
    let commits = Commits::new().parse(vec![chunk]);
    let cs = commits.get_commits();
    assert_eq!(cs.len(), 1);
    assert_eq!(cs[0].get_hash(), "abc123");
    assert_eq!(cs[0].get_date(), Date { year: 2024, month: 4, day: 8 });
    assert_eq!(cs[0].get_insertion(), 13);
    assert_eq!(cs[0].get_deletion(), 3);
}

#[test]
fn truncated_row_counts_as_nothing() {
    let chunk = "h1|2024-04-08T11:24:15+09:00\n7\n4 2 a.rs\n";
    let commits = Commits::from(vec![chunk]);
    let cs = commits.get_commits();
    assert_eq!(cs.len(), 1);
    assert_eq!(cs[0].get_insertion(), 4);
    assert_eq!(cs[0].get_deletion(), 2);
}

#[test]
fn per_file_chunks_group_by_period() {
    let chunks = vec![
        "h1|2024-04-08T11:24:15+09:00\n1 2 a.rs",
        "h2|2024-04-03T11:24:15+09:00\n10 20 b.rs",
        "h3|not a date\n5 5 c.rs",
        "h4|2022-06-02T19:02:27+09:00\n+66 2 c.rs",
        "h5|2024-05-02T19:02:27+09:00",
    ];
    let commits = Commits::from(chunks);
    assert_eq!(commits.get_commits().len(), 3);
    let by_month = commits.group_by_month();
    assert_eq!(
        by_month,
        vec![
            (Date { year: 2022, month: 6, day: 30 }, (66, 2)),
            (Date { year: 2024, month: 4, day: 30 }, (11, 22)),
        ]
    );
    let by_year = commits.group_by_year();
    assert_eq!(
        by_year,
        vec![
            (Date { year: 2022, month: 12, day: 31 }, (66, 2)),
            (Date { year: 2024, month: 12, day: 31 }, (11, 22)),
        ]
    );
}
