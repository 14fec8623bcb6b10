use calc_spreadsheet::date::{
    datedif, datevalue, days_in_month, excel_date, is_leap_year, serial_to_ymd, ymd_to_serial, CivilDate,
    DatedifError, MAX_EXCEL_SERIAL,
};
use std::cmp::Ordering;

#[test]
fn excel_known_serials() {
    assert_eq!(ymd_to_serial(1900, 1, 1).unwrap(), 1);
    assert_eq!(ymd_to_serial(1900, 2, 28).unwrap(), 59);
    assert_eq!(ymd_to_serial(1900, 2, 29).unwrap(), 60);
    assert_eq!(ymd_to_serial(1900, 3, 1).unwrap(), 61);
    assert_eq!(ymd_to_serial(2008, 1, 1).unwrap(), 39448);
    assert_eq!(ymd_to_serial(9999, 12, 31).unwrap(), MAX_EXCEL_SERIAL);
}

#[test]
fn serial_round_trip_skips_fake_leap_via_lookup() {
    assert_eq!(serial_to_ymd(60).unwrap(), CivilDate { year: 1900, month: 2, day: 29 });
    assert_eq!(serial_to_ymd(61).unwrap(), CivilDate { year: 1900, month: 3, day: 1 });
    assert_eq!(serial_to_ymd(39448).unwrap(), CivilDate { year: 2008, month: 1, day: 1 });
}

#[test]
fn serial_to_ymd_rejects_non_finite_and_out_of_range() {
    // Serials are whole numbers here; non-finite values never reach the library.
    assert!(serial_to_ymd(0).is_err());
    assert!(serial_to_ymd(MAX_EXCEL_SERIAL + 1).is_err());
}

#[test]
fn datevalue_rejects_invalid_calendar_dates() {
    assert!(datevalue("2024-01-32").is_err());
    assert!(datevalue("2024-02-30").is_err());
    assert_eq!(datevalue("2008/1/1").unwrap(), 39448);
}

#[test]
fn datevalue_supports_dmy_when_unambiguous_and_japanese() {
    assert_eq!(datevalue("15/1/2008").unwrap(), ymd_to_serial(2008, 1, 15).unwrap());
    assert_eq!(datevalue("1/15/2008").unwrap(), ymd_to_serial(2008, 1, 15).unwrap());
    assert_eq!(datevalue("2008年1月1日").unwrap(), ymd_to_serial(2008, 1, 1).unwrap());
    assert_eq!(datevalue("令和6年4月1日").unwrap(), ymd_to_serial(2024, 4, 1).unwrap());
    assert_eq!(datevalue("平成元年1月8日").unwrap(), ymd_to_serial(1989, 1, 8).unwrap());
}

#[test]
fn datedif_microsoft_examples() {
    let start = CivilDate { year: 2001, month: 1, day: 1 };
    let end = CivilDate { year: 2003, month: 1, day: 1 };
    assert_eq!(datedif(start, end, "Y").unwrap(), 2);

    let start = CivilDate { year: 2001, month: 6, day: 1 };
    let end = CivilDate { year: 2002, month: 8, day: 15 };
    assert_eq!(datedif(start, end, "D").unwrap(), 440);
    assert_eq!(datedif(start, end, "YD").unwrap(), 75);
}

#[test]
fn datedif_md_matches_phpspreadsheet() {
    let start = CivilDate { year: 2007, month: 1, day: 1 };
    let end = CivilDate { year: 2007, month: 1, day: 31 };
    assert_eq!(datedif(start, end, "MD").unwrap(), 30);

    // end.day < start.day: uses previous month of *end*.
    let start = CivilDate { year: 2007, month: 1, day: 20 };
    let end = CivilDate { year: 2008, month: 3, day: 5 };
    // 5 + days_in_feb(2008)=29 - 20 = 14
    assert_eq!(datedif(start, end, "MD").unwrap(), 14);

    // The result can be negative.
    let start = CivilDate { year: 2007, month: 1, day: 31 };
    let end = CivilDate { year: 2007, month: 3, day: 1 };
    // 1 + 28 - 31 = -2
    assert_eq!(datedif(start, end, "MD").unwrap(), -2);
}

// --- further cases -------------------------------------------------------

#[test]
fn leap_years_and_month_lengths() {
    assert!(is_leap_year(2000));
    assert!(!is_leap_year(1900));
    assert!(is_leap_year(2024));
    assert!(!is_leap_year(2023));
    assert_eq!(days_in_month(2024, 2), 29);
    assert_eq!(days_in_month(2023, 2), 28);
    assert_eq!(days_in_month(2023, 4), 30);
    assert_eq!(days_in_month(2023, 12), 31);
}

#[test]
fn dates_compare_by_year_month_day() {
    let a = CivilDate { year: 2001, month: 5, day: 9 };
    let b = CivilDate { year: 2001, month: 6, day: 1 };
    assert_eq!(a.cmp_date(b), Ordering::Less);
    assert_eq!(b.cmp_date(a), Ordering::Greater);
    assert_eq!(a.cmp_date(a), Ordering::Equal);
}

#[test]
fn serial_round_trip() {
    for serial in [1i64, 59, 60, 61, 365, 39448, 45000, MAX_EXCEL_SERIAL] {
        let d = serial_to_ymd(serial).unwrap();
        assert_eq!(ymd_to_serial(d.year, d.month, d.day).unwrap(), serial);
    }
}

#[test]
fn date_normalises_months_and_days() {
    assert_eq!(excel_date(2008, 1, 1).unwrap(), 39448);
    assert_eq!(excel_date(2007, 13, 1).unwrap(), 39448);
    assert_eq!(excel_date(2008, 0, 1).unwrap(), ymd_to_serial(2007, 12, 1).unwrap());
    assert_eq!(excel_date(2008, 1, 0).unwrap(), ymd_to_serial(2007, 12, 31).unwrap());
    assert_eq!(excel_date(108, 1, 1).unwrap(), 39448);
    assert!(excel_date(10000, 1, 1).is_err());
}

#[test]
fn datedif_errors() {
    let start = CivilDate { year: 2003, month: 1, day: 1 };
    let end = CivilDate { year: 2001, month: 1, day: 1 };
    assert_eq!(datedif(start, end, "Y").unwrap_err(), DatedifError::Num);
    assert_eq!(datedif(end, start, "Q").unwrap_err(), DatedifError::Value);
    assert_eq!(datedif(end, start, "m").unwrap(), 24);
    assert_eq!(datedif(end, start, "YM").unwrap(), 0);
}

#[test]
fn datedif_on_dates_without_a_serial() {
    let bad = CivilDate { year: 2023, month: 2, day: 30 };
    let ok = CivilDate { year: 2023, month: 3, day: 5 };
    assert_eq!(datedif(bad, ok, "D"), Err(DatedifError::Value));
    assert_eq!(datedif(bad, ok, "yd"), Err(DatedifError::Value));
    assert_eq!(datedif(bad, ok, "M"), Ok(0));
    assert_eq!(datedif(bad, ok, "MD"), Ok(3));
    let old = CivilDate { year: 1800, month: 6, day: 1 };
    assert_eq!(datedif(old, ok, "Y"), Ok(222));
    assert_eq!(datedif(old, ok, "D"), Err(DatedifError::Value));
    assert_eq!(datedif(ok, old, "Y"), Err(DatedifError::Num));
    assert_eq!(datedif(old, ok, "W"), Err(DatedifError::Value));
}

#[test]
fn date_order_matches_serial_order_around_the_fake_leap_day() {
    let feb28 = CivilDate { year: 1900, month: 2, day: 28 };
    let feb29 = CivilDate { year: 1900, month: 2, day: 29 };
    let mar1 = CivilDate { year: 1900, month: 3, day: 1 };
    assert_eq!(feb28.cmp_date(feb29), Ordering::Less);
    assert_eq!(feb29.cmp_date(mar1), Ordering::Less);
    assert!(ymd_to_serial(1900, 2, 28).unwrap() < ymd_to_serial(1900, 2, 29).unwrap());
    assert!(ymd_to_serial(1900, 2, 29).unwrap() < ymd_to_serial(1900, 3, 1).unwrap());
    assert_eq!(feb29.cmp_date(feb29), Ordering::Equal);
}
