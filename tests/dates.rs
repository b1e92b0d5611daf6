use investments::sheet::SheetCursor;
use investments::date::{Date, MAX_YEAR, MIN_YEAR};
use investments::error::Error;
use investments::period::Period;

fn date(y: i32, m: u32, d: u32) -> Date {
    Date::from_ymd(y, m, d).unwrap()
}

#[test]
fn date_numbers_and_years() {
    assert_eq!(date(1, 1, 1).days_from_ce(), 1);
    assert_eq!(date(1970, 1, 1).days_from_ce(), 719_163);
    assert_eq!(date(2021, 12, 31).year(), 2021);
    assert_eq!(date(2021, 1, 1).pred().year(), 2020);
    assert_eq!(date(2020, 2, 28).succ(), date(2020, 2, 29));
    assert_eq!(date(2021, 2, 28).succ(), date(2021, 3, 1));
}

#[test]
fn date_validity() {
    assert!(Date::from_ymd(2021, 2, 29).is_none());
    assert!(Date::from_ymd(2020, 2, 29).is_some());
    assert!(Date::from_ymd(2021, 13, 1).is_none());
    assert!(Date::from_ymd(2021, 4, 31).is_none());
    assert!(Date::from_ymd(MAX_YEAR, 12, 31).is_some());
    assert!(Date::from_ymd(MAX_YEAR + 1, 1, 1).is_none());
    assert!(Date::from_ymd(MIN_YEAR, 1, 1).is_some());
    assert!(Date::from_ymd(MIN_YEAR - 1, 12, 31).is_none());
}

#[test]
fn date_format() {
    assert_eq!(date(2021, 3, 5).format(), "05.03.2021");
}

#[test]
fn period_bounds() {
    let period = Period::new(date(2021, 1, 1), date(2021, 12, 31)).unwrap();
    assert_eq!(period.first_date(), date(2021, 1, 1));
    assert_eq!(period.last_date(), date(2021, 12, 31));
    assert_eq!(period.prev_date(), date(2020, 12, 31));
    assert_eq!(period.next_date(), date(2022, 1, 1));
    assert_eq!(period.days(), 365);
    assert!(period.contains(date(2021, 6, 1)));
    assert!(period.contains(date(2021, 12, 31)));
    assert!(!period.contains(date(2022, 1, 1)));
    assert!(!period.contains(date(2020, 12, 31)));
}

#[test]
fn period_of_one_day() {
    let period = Period::new(date(2020, 2, 29), date(2020, 2, 29)).unwrap();
    assert_eq!(period.days(), 1);
}

#[test]
fn period_invalid() {
    assert_eq!(
        Period::new(date(2021, 1, 2), date(2021, 1, 1)),
        Err(Error::InvalidPeriod("02.01.2021 - 01.01.2021".to_string())),
    );
}

#[test]
fn period_format() {
    let period = Period::new(date(2021, 1, 1), date(2021, 12, 31)).unwrap();
    assert_eq!(period.format(), "01.01.2021 - 31.12.2021");
}


#[test]
fn sheet_cursor_walks_rows() {
    let skipped = vec![true, false, true, false];
    let mut cursor = SheetCursor::new();
    assert_eq!(cursor.error_row(), None);
    assert_eq!(cursor.next_row(&skipped), Some(1));
    assert_eq!(cursor.error_row(), Some(1));
    cursor.step_back();
    assert_eq!(cursor.next_row(&skipped), Some(1));
    assert_eq!(cursor.next_row(&skipped), Some(3));
    assert_eq!(cursor.next_row(&skipped), None);
    assert!(cursor.eof_reached);
    assert_eq!(cursor.error_row(), None);
    assert_eq!(cursor.next_row_id, 4);
}

#[test]
fn sheet_cursor_skips_empty_rows() {
    let skipped = vec![true, false, true, false];
    let empty = vec![false, true, false, false];
    let mut cursor = SheetCursor::new();
    cursor.skip_empty_rows(&skipped, &empty);
    assert_eq!(cursor.next_row_id, 3);
    assert!(!cursor.eof_reached);
    assert_eq!(cursor.next_row(&skipped), Some(3));

    let mut cursor = SheetCursor::new();
    cursor.skip_empty_rows(&skipped, &vec![true; 4]);
    assert!(cursor.eof_reached);
}
