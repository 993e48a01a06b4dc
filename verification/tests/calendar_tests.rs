use zmq_kv_store::calendar::{days_to_date, seconds_to_datetime};

fn is_leap(y: i64) -> bool {
    y % 4 == 0 && (y % 100 != 0 || y % 400 == 0)
}

fn month_len(y: i64, m: u32) -> u32 {
    match m {
        2 => {
            if is_leap(y) {
                29
            } else {
                28
            }
        }
        4 | 6 | 9 | 11 => 30,
        _ => 31,
    }
}

#[test]
fn epoch_is_first_of_january_1970() {
    assert_eq!(seconds_to_datetime(0), (1970, 1, 1, 0, 0, 0));
}

#[test]
fn one_day_one_hour_one_minute_one_second() {
    assert_eq!(seconds_to_datetime(86400 + 3661), (1970, 1, 2, 1, 1, 1));
}

#[test]
fn last_second_of_february_28_in_a_leap_year() {
    assert_eq!(seconds_to_datetime(951782399), (2000, 2, 28, 23, 59, 59));
}

#[test]
fn first_second_of_february_29_in_a_leap_year() {
    assert_eq!(seconds_to_datetime(951782400), (2000, 2, 29, 0, 0, 0));
}

#[test]
fn anchor_day_is_first_of_march_2000() {
    assert_eq!(seconds_to_datetime(951868800), (2000, 3, 1, 0, 0, 0));
}

#[test]
fn day_before_the_anchor_is_in_the_past_cycle() {
    assert_eq!(seconds_to_datetime(946684799), (1999, 12, 31, 23, 59, 59));
}

#[test]
fn january_belongs_to_the_next_civil_year() {
    assert_eq!(seconds_to_datetime(978220800), (2000, 12, 31, 0, 0, 0));
    assert_eq!(seconds_to_datetime(978307200), (2001, 1, 1, 0, 0, 0));
}

#[test]
fn century_year_not_divisible_by_400_has_no_leap_day() {
    assert_eq!(seconds_to_datetime(4107542399), (2100, 2, 28, 23, 59, 59));
    assert_eq!(seconds_to_datetime(4107542400), (2100, 3, 1, 0, 0, 0));
}

#[test]
fn century_year_divisible_by_400_has_a_leap_day() {
    assert_eq!(seconds_to_datetime(13574563200), (2400, 2, 29, 0, 0, 0));
}

#[test]
fn ordinary_leap_day() {
    assert_eq!(seconds_to_datetime(1709210096), (2024, 2, 29, 12, 34, 56));
}

#[test]
fn five_digit_year() {
    assert_eq!(seconds_to_datetime(253402300799), (9999, 12, 31, 23, 59, 59));
    assert_eq!(seconds_to_datetime(253402300800), (10000, 1, 1, 0, 0, 0));
}

#[test]
fn year_wraps_at_two_to_the_32() {
    // The year of this instant is 584554051223.
    assert_eq!(seconds_to_datetime(u64::MAX), (438498967, 11, 9, 7, 0, 15));
}

#[test]
fn days_before_the_epoch() {
    assert_eq!(days_to_date(-1), (1969, 12, 31));
    assert_eq!(days_to_date(-25567), (1900, 1, 1));
    assert_eq!(days_to_date(-719162), (1, 1, 1));
    assert_eq!(days_to_date(-719528), (0, 1, 1));
    assert_eq!(days_to_date(-719529), (-1, 12, 31));
}

#[test]
fn every_day_of_seven_centuries_matches_a_calendar_counted_day_by_day() {
    let mut y: i64 = 1970;
    let mut m: u32 = 1;
    let mut d: u32 = 1;
    let mut day: u64 = 0;
    while y < 2670 {
        let first = day * 86400;
        let last = first + 86399;
        assert_eq!(seconds_to_datetime(first), (y as u32, m, d, 0, 0, 0));
        assert_eq!(seconds_to_datetime(last), (y as u32, m, d, 23, 59, 59));
        assert_eq!(days_to_date(day as i64), (y, m, d));
        d += 1;
        if d > month_len(y, m) {
            d = 1;
            m += 1;
            if m > 12 {
                m = 1;
                y += 1;
            }
        }
        day += 1;
    }
}

#[test]
fn every_day_back_to_the_year_1500_matches_a_calendar_counted_day_by_day() {
    let mut y: i64 = 1970;
    let mut m: u32 = 1;
    let mut d: u32 = 1;
    let mut day: i64 = 0;
    while y >= 1500 {
        assert_eq!(days_to_date(day), (y, m, d));
        if d > 1 {
            d -= 1;
        } else {
            if m > 1 {
                m -= 1;
            } else {
                m = 12;
                y -= 1;
            }
            d = month_len(y, m);
        }
        day -= 1;
    }
}

#[test]
fn time_of_day_fields() {
    let base: u64 = 1700000000 - (22 * 3600 + 13 * 60 + 20);
    for h in 0..24u64 {
        for mi in [0u64, 1, 30, 59] {
            for s in [0u64, 1, 59] {
                let r = seconds_to_datetime(base + h * 3600 + mi * 60 + s);
                assert_eq!(r, (2023, 11, 14, h as u32, mi as u32, s as u32));
            }
        }
    }
}

#[test]
fn year_field_is_exact_through_the_year_4294967295() {
    assert_eq!(
        seconds_to_datetime(135_536_014_634_284_799),
        (4_294_967_295, 12, 31, 23, 59, 59)
    );
    assert_eq!(seconds_to_datetime(135_536_014_634_284_800), (0, 1, 1, 0, 0, 0));
}
