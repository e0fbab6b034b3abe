use git_stats::table::Table;

fn strings(v: &[&str]) -> Vec<String> {
    v.iter().map(|s| s.to_string()).collect()
}

#[test]
fn column_widths_take_the_widest_cell() {
    let table = Table::new(
        strings(&["Date", "Insertion"]),
        vec![strings(&["2024-04", "5"]), strings(&["2022", "123456789012"])],
    );
    assert_eq!(table.column_widths(), vec![7, 12]);
}

#[test]
fn render_aligns_columns() {
    let table = Table::new(
        strings(&["Date", "Ins"]),
        vec![strings(&["2024-04", "50"]), strings(&["2022", "66"])],
    );
    let expected = "Date    Ins \n------- --- \n2024-04 50  \n2022    66  \n";
    assert_eq!(table.render(), expected);
}

#[test]
fn render_of_empty_column_has_one_dash() {
    let table = Table::new(strings(&["", "A"]), vec![]);
    assert_eq!(table.render(), " A \n- - \n");
}
