use daila::date::Date;

fn d(year: u16, month: u8, day: u8) -> Date {
    Date::new(year, month, day).unwrap()
}

#[test]
fn next_day_within_month() {
    assert_eq!(d(2024, 3, 1).next_day(), d(2024, 3, 2));
}

#[test]
fn next_day_rolls_over_month() {
    assert_eq!(d(2024, 1, 31).next_day(), d(2024, 2, 1));
    assert_eq!(d(2024, 4, 30).next_day(), d(2024, 5, 1));
}

#[test]
fn next_day_rolls_over_year() {
    assert_eq!(d(2023, 12, 31).next_day(), d(2024, 1, 1));
}

#[test]
fn leap_year_february() {
    assert_eq!(d(2024, 2, 28).next_day(), d(2024, 2, 29));
    assert_eq!(d(2024, 2, 29).next_day(), d(2024, 3, 1));
    assert_eq!(d(2023, 2, 28).next_day(), d(2023, 3, 1));
    // century years are leap only when divisible by 400
    assert_eq!(d(1900, 2, 28).next_day(), d(1900, 3, 1));
    assert_eq!(d(2000, 2, 28).next_day(), d(2000, 2, 29));
}

#[test]
fn prev_day_rolls_back() {
    assert_eq!(d(2024, 3, 1).prev_day(), d(2024, 2, 29));
    assert_eq!(d(2024, 1, 1).prev_day(), d(2023, 12, 31));
    assert_eq!(d(2024, 3, 2).prev_day(), d(2024, 3, 1));
}

#[test]
fn prev_day_undoes_next_day() {
    let dates = [d(2024, 1, 31), d(2023, 12, 31), d(2024, 2, 28), d(2021, 6, 15)];
    for x in dates {
        assert_eq!(x.next_day().prev_day(), x);
        assert_eq!(x.prev_day().next_day(), x);
    }
}

#[test]
fn stepping_a_full_leap_year() {
    let mut x = d(2024, 1, 1);
    for _ in 0..366 {
        x = x.next_day();
    }
    assert_eq!(x, d(2025, 1, 1));
}

#[test]
fn invalid_dates_are_rejected() {
    assert!(Date::new(2024, 2, 30).is_none());
    assert!(Date::new(2023, 2, 29).is_none());
    assert!(Date::new(2024, 13, 1).is_none());
    assert!(Date::new(2024, 0, 1).is_none());
    assert!(Date::new(2024, 6, 0).is_none());
    assert!(Date::new(0, 1, 1).is_none());
    assert!(Date::new(10000, 1, 1).is_none());
}

#[test]
fn clamping_keeps_a_valid_date_unchanged() {
    assert_eq!(daila::date::clamp_ymd(2024, 2, 29), d(2024, 2, 29));
    assert_eq!(daila::date::clamp_ymd(1987, 7, 31), d(1987, 7, 31));
}

#[test]
fn clamping_lands_on_the_nearest_valid_date() {
    assert_eq!(daila::date::clamp_ymd(0, 5, 10), d(1, 1, 1));
    assert_eq!(daila::date::clamp_ymd(-42, 1, 1), d(1, 1, 1));
    assert_eq!(daila::date::clamp_ymd(10000, 5, 10), d(9999, 12, 31));
    assert_eq!(daila::date::clamp_ymd(2023, 2, 29), d(2023, 2, 28));
    assert_eq!(daila::date::clamp_ymd(2024, 4, 31), d(2024, 4, 30));
}

#[test]
fn today_is_a_valid_date() {
    let t = daila::date::today();
    assert!(t.is_valid());
}
