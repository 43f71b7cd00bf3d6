use phrasewatch::calendar::{
    add_local_month, civil_from_days, days_from_civil, floor_div, floor_mod, shift_local,
    start_of_local_day, start_of_local_month, start_of_local_week, unshift_local, DAY_MS,
};

#[test]
fn civil_dates_and_day_numbers() {
    assert_eq!(days_from_civil(1970, 1, 1), 0);
    assert_eq!(days_from_civil(2000, 3, 1), 11_017);
    assert_eq!(days_from_civil(2024, 1, 1), 19_723);
    assert_eq!(days_from_civil(1969, 12, 31), -1);
    assert_eq!(civil_from_days(0), (1970, 1, 1));
    assert_eq!(civil_from_days(19_723 + 59), (2024, 2, 29));
    assert_eq!(civil_from_days(700_000_000_000), (1_916_536_874, 11, 22));
    assert_eq!(civil_from_days(-700_000_000_000), (-1_916_532_935, 2, 9));
    assert_eq!(civil_from_days(-1), (1969, 12, 31));
    assert_eq!(civil_from_days(11_016), (2000, 2, 29));
    assert_eq!(civil_from_days(days_from_civil(2100, 3, 1) - 1), (2100, 2, 28));
}

#[test]
fn floor_division_rounds_down() {
    assert_eq!(floor_div(7, 2), 3);
    assert_eq!(floor_div(-7, 2), -4);
    assert_eq!(floor_div(-8, 2), -4);
    assert_eq!(floor_mod(-7, 2), 1);
    assert_eq!(floor_mod(i64::MIN, 7), i64::MIN.rem_euclid(7));
    assert_eq!(floor_div(i64::MIN, 7), i64::MIN.div_euclid(7));
}

#[test]
fn local_day_and_shift() {
    assert_eq!(shift_local(0, 60), -3_600_000);
    assert_eq!(unshift_local(-3_600_000, 60), 0);
    assert_eq!(start_of_local_day(DAY_MS + 5, 0), DAY_MS);
    // At UTC-01:00 local midnight is 01:00 UTC.
    assert_eq!(start_of_local_day(30 * 60_000, 60), -DAY_MS + 3_600_000);
}

#[test]
fn local_weeks_start_on_monday() {
    assert_eq!(start_of_local_week(0, 0), -3 * DAY_MS);
    assert_eq!(start_of_local_week(4 * DAY_MS, 0), 4 * DAY_MS);
    assert_eq!(start_of_local_week(11 * DAY_MS - 1, 0), 4 * DAY_MS);
}

#[test]
fn local_months() {
    let jan = 19_723 * DAY_MS;
    assert_eq!(start_of_local_month(jan + 40 * DAY_MS, 0), jan + 31 * DAY_MS);
    assert_eq!(add_local_month(jan + 40 * DAY_MS, 0), jan + 60 * DAY_MS);
    let dec = days_from_civil(2023, 12, 1) * DAY_MS;
    assert_eq!(add_local_month(dec, 0), jan);
    // An offset west of UTC moves local month starts later.
    assert_eq!(start_of_local_month(jan, 120), dec + 2 * 3_600_000);
}
