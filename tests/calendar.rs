use git_stats::date::Date;
use git_stats::utils::{last_day_of_month, last_day_of_year};

#[test]
fn last_day_of_year_is_december_31() {
    assert_eq!(last_day_of_year(2022), Date { year: 2022, month: 12, day: 31 });
    assert_eq!(last_day_of_year(-44), Date { year: -44, month: 12, day: 31 });
}

#[test]
fn last_day_of_month_follows_month_lengths() {
    assert_eq!(last_day_of_month(2024, 2), Date { year: 2024, month: 2, day: 29 });
    assert_eq!(last_day_of_month(2023, 2), Date { year: 2023, month: 2, day: 28 });
    assert_eq!(last_day_of_month(1900, 2), Date { year: 1900, month: 2, day: 28 });
    assert_eq!(last_day_of_month(2000, 2), Date { year: 2000, month: 2, day: 29 });
    assert_eq!(last_day_of_month(2024, 4), Date { year: 2024, month: 4, day: 30 });
    assert_eq!(last_day_of_month(2024, 12), Date { year: 2024, month: 12, day: 31 });
    assert_eq!(last_day_of_month(2024, 1), Date { year: 2024, month: 1, day: 31 });
}
