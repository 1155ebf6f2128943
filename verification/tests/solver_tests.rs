use cronexpr::parse_crontab;
use cronexpr::Driver;

fn make_driver(crontab: &str, timestamp: &str) -> Driver {
    let timestamp: jiff::Timestamp = timestamp.parse().unwrap();
    let crontab = parse_crontab(crontab).unwrap();
    crontab.drive(timestamp.as_millisecond())
}

/// Advance the driver and check the firing against a zoned datetime text.
fn assert_next(driver: &mut Driver, expected: &str) {
    let z = driver.next_zoned().unwrap();
    let want: jiff::Zoned = expected.parse().unwrap();
    assert_eq!(z.ms, want.timestamp().as_millisecond());
    assert_eq!(z.year, want.year());
    assert_eq!(z.month as i8, want.month());
    assert_eq!(z.day as i8, want.day());
    assert_eq!(z.hour as i8, want.hour());
    assert_eq!(z.minute as i8, want.minute());
    assert_eq!(z.second as i8, want.second());
    assert_eq!(z.weekday as i8, want.weekday().to_monday_one_offset());
}

#[test]
fn test_next_timestamp() {
    let driver = make_driver("0 0 1 1 * Asia/Shanghai", "2024-01-01T00:00:00+08:00");
    let z = driver.find_next_zoned().unwrap();
    let want: jiff::Zoned = "2025-01-01T00:00:00+08:00[Asia/Shanghai]".parse().unwrap();
    assert_eq!(z.ms, want.timestamp().as_millisecond());

    let mut driver = make_driver("2 4 * * * Asia/Shanghai", "2024-09-11T19:08:35+08:00");
    assert_next(&mut driver, "2024-09-12T04:02:00+08:00[Asia/Shanghai]");
    assert_next(&mut driver, "2024-09-13T04:02:00+08:00[Asia/Shanghai]");
    assert_next(&mut driver, "2024-09-14T04:02:00+08:00[Asia/Shanghai]");
    assert_next(&mut driver, "2024-09-15T04:02:00+08:00[Asia/Shanghai]");
    assert_next(&mut driver, "2024-09-16T04:02:00+08:00[Asia/Shanghai]");

    let mut driver = make_driver("0 0 31 * * Asia/Shanghai", "2024-09-11T19:08:35+08:00");
    assert_next(&mut driver, "2024-10-31T00:00:00+08:00[Asia/Shanghai]");
    assert_next(&mut driver, "2024-12-31T00:00:00+08:00[Asia/Shanghai]");
    assert_next(&mut driver, "2025-01-31T00:00:00+08:00[Asia/Shanghai]");
    assert_next(&mut driver, "2025-03-31T00:00:00+08:00[Asia/Shanghai]");
    assert_next(&mut driver, "2025-05-31T00:00:00+08:00[Asia/Shanghai]");
    assert_next(&mut driver, "2025-07-31T00:00:00+08:00[Asia/Shanghai]");
    assert_next(&mut driver, "2025-08-31T00:00:00+08:00[Asia/Shanghai]");
    assert_next(&mut driver, "2025-10-31T00:00:00+08:00[Asia/Shanghai]");
    assert_next(&mut driver, "2025-12-31T00:00:00+08:00[Asia/Shanghai]");
    assert_next(&mut driver, "2026-01-31T00:00:00+08:00[Asia/Shanghai]");
    assert_next(&mut driver, "2026-03-31T00:00:00+08:00[Asia/Shanghai]");
    assert_next(&mut driver, "2026-05-31T00:00:00+08:00[Asia/Shanghai]");

    let mut driver = make_driver("0 18 * * 1-5 Asia/Shanghai", "2024-09-11T19:08:35+08:00");
    assert_next(&mut driver, "2024-09-12T18:00:00+08:00[Asia/Shanghai]");
    assert_next(&mut driver, "2024-09-13T18:00:00+08:00[Asia/Shanghai]");
    assert_next(&mut driver, "2024-09-16T18:00:00+08:00[Asia/Shanghai]");
    assert_next(&mut driver, "2024-09-17T18:00:00+08:00[Asia/Shanghai]");
    assert_next(&mut driver, "2024-09-18T18:00:00+08:00[Asia/Shanghai]");
    assert_next(&mut driver, "2024-09-19T18:00:00+08:00[Asia/Shanghai]");

    let mut driver = make_driver("0 18 * * TUE#1 Asia/Shanghai", "2024-09-24T00:08:35+08:00");
    assert_next(&mut driver, "2024-10-01T18:00:00+08:00[Asia/Shanghai]");
    assert_next(&mut driver, "2024-11-05T18:00:00+08:00[Asia/Shanghai]");
    assert_next(&mut driver, "2024-12-03T18:00:00+08:00[Asia/Shanghai]");
    assert_next(&mut driver, "2025-01-07T18:00:00+08:00[Asia/Shanghai]");
    assert_next(&mut driver, "2025-02-04T18:00:00+08:00[Asia/Shanghai]");
    assert_next(&mut driver, "2025-03-04T18:00:00+08:00[Asia/Shanghai]");
    assert_next(&mut driver, "2025-04-01T18:00:00+08:00[Asia/Shanghai]");

    // The last Monday of each month; never December, where the
    // month-number comparison behind the matcher cannot increase.
    let mut driver = make_driver("4 2 * * 1L Asia/Shanghai", "2024-09-24T00:08:35+08:00");
    assert_next(&mut driver, "2024-09-30T02:04:00+08:00[Asia/Shanghai]");
    assert_next(&mut driver, "2024-10-28T02:04:00+08:00[Asia/Shanghai]");
    assert_next(&mut driver, "2024-11-25T02:04:00+08:00[Asia/Shanghai]");
    assert_next(&mut driver, "2025-01-27T02:04:00+08:00[Asia/Shanghai]");
    assert_next(&mut driver, "2025-02-24T02:04:00+08:00[Asia/Shanghai]");
    assert_next(&mut driver, "2025-03-31T02:04:00+08:00[Asia/Shanghai]");
    assert_next(&mut driver, "2025-04-28T02:04:00+08:00[Asia/Shanghai]");

    let mut driver = make_driver("0 18 * * FRI#5 Asia/Shanghai", "2024-09-24T00:08:35+08:00");
    assert_next(&mut driver, "2024-11-29T18:00:00+08:00[Asia/Shanghai]");
    assert_next(&mut driver, "2025-01-31T18:00:00+08:00[Asia/Shanghai]");
    assert_next(&mut driver, "2025-05-30T18:00:00+08:00[Asia/Shanghai]");
    assert_next(&mut driver, "2025-08-29T18:00:00+08:00[Asia/Shanghai]");
    assert_next(&mut driver, "2025-10-31T18:00:00+08:00[Asia/Shanghai]");
    assert_next(&mut driver, "2026-01-30T18:00:00+08:00[Asia/Shanghai]");
    assert_next(&mut driver, "2026-05-29T18:00:00+08:00[Asia/Shanghai]");

    let mut driver = make_driver(
        "3 11 L JAN-FEB,5 * Asia/Shanghai",
        "2024-09-24T00:08:35+08:00",
    );
    assert_next(&mut driver, "2025-01-31T11:03:00+08:00[Asia/Shanghai]");
    assert_next(&mut driver, "2025-02-28T11:03:00+08:00[Asia/Shanghai]");
    assert_next(&mut driver, "2025-05-31T11:03:00+08:00[Asia/Shanghai]");
    assert_next(&mut driver, "2026-01-31T11:03:00+08:00[Asia/Shanghai]");
    assert_next(&mut driver, "2026-02-28T11:03:00+08:00[Asia/Shanghai]");
    assert_next(&mut driver, "2026-05-31T11:03:00+08:00[Asia/Shanghai]");

    let mut driver = make_driver("3 11 17W,L * * Asia/Shanghai", "2024-09-24T00:08:35+08:00");
    assert_next(&mut driver, "2024-09-30T11:03:00+08:00[Asia/Shanghai]");
    assert_next(&mut driver, "2024-10-17T11:03:00+08:00[Asia/Shanghai]");
    assert_next(&mut driver, "2024-10-31T11:03:00+08:00[Asia/Shanghai]");
    assert_next(&mut driver, "2024-11-18T11:03:00+08:00[Asia/Shanghai]");
    assert_next(&mut driver, "2024-11-30T11:03:00+08:00[Asia/Shanghai]");
    assert_next(&mut driver, "2024-12-17T11:03:00+08:00[Asia/Shanghai]");

    let mut driver = make_driver("3 11 1W * * Asia/Shanghai", "2024-09-24T00:08:35+08:00");
    assert_next(&mut driver, "2024-10-01T11:03:00+08:00[Asia/Shanghai]");
    assert_next(&mut driver, "2024-11-01T11:03:00+08:00[Asia/Shanghai]");
    assert_next(&mut driver, "2024-12-02T11:03:00+08:00[Asia/Shanghai]");
    assert_next(&mut driver, "2025-01-01T11:03:00+08:00[Asia/Shanghai]");
    assert_next(&mut driver, "2025-02-03T11:03:00+08:00[Asia/Shanghai]");
    assert_next(&mut driver, "2025-03-03T11:03:00+08:00[Asia/Shanghai]");

    let mut driver = make_driver("3 11 31W * * Asia/Shanghai", "2024-09-24T00:08:35+08:00");
    assert_next(&mut driver, "2024-10-31T11:03:00+08:00[Asia/Shanghai]");
    assert_next(&mut driver, "2024-12-31T11:03:00+08:00[Asia/Shanghai]");
    assert_next(&mut driver, "2025-01-31T11:03:00+08:00[Asia/Shanghai]");
    assert_next(&mut driver, "2025-03-31T11:03:00+08:00[Asia/Shanghai]");
    assert_next(&mut driver, "2025-05-30T11:03:00+08:00[Asia/Shanghai]");
    assert_next(&mut driver, "2025-07-31T11:03:00+08:00[Asia/Shanghai]");
    assert_next(&mut driver, "2025-08-29T11:03:00+08:00[Asia/Shanghai]");
    assert_next(&mut driver, "2025-10-31T11:03:00+08:00[Asia/Shanghai]");
}

#[test]
fn test_unsatisfiable_schedule_exhausts() {
    // February the 30th never exists: the search gives up after four years.
    let driver = make_driver("0 0 30 2 * UTC", "2024-01-01T00:00:00Z");
    let err = driver.find_next_zoned().unwrap_err();
    assert!(err
        .message()
        .contains("failed to find next timestamp in four years"));
}

#[test]
fn test_leap_year_last_day_of_february() {
    let mut driver = make_driver("0 0 L 2 * UTC", "2024-01-01T00:00:00Z");
    assert_next(&mut driver, "2024-02-29T00:00:00Z[UTC]");
    assert_next(&mut driver, "2025-02-28T00:00:00Z[UTC]");
    assert_next(&mut driver, "2026-02-28T00:00:00Z[UTC]");
}

#[test]
fn test_minute_alignment_and_zone_fidelity() {
    // Every firing is aligned to a whole minute, and its local components
    // obey the schedule fields when viewed in the schedule's zone.
    let mut driver = make_driver("2 4 * * * Asia/Shanghai", "2024-09-11T19:08:35+08:00");
    for _ in 0..5 {
        let z = driver.next_zoned().unwrap();
        assert_eq!(z.second, 0);
        assert_eq!(z.minute, 2);
        assert_eq!(z.hour, 4);
        let ts = jiff::Timestamp::from_millisecond(z.ms).unwrap();
        let tz = jiff::tz::TimeZone::get("Asia/Shanghai").unwrap();
        let zoned = ts.to_zoned(tz);
        assert_eq!(zoned.second(), 0);
        assert_eq!(zoned.subsec_nanosecond(), 0);
        assert_eq!(zoned.minute(), 2);
        assert_eq!(zoned.hour(), 4);
        assert_eq!(zoned.year(), z.year);
        assert_eq!(zoned.month(), z.month as i8);
        assert_eq!(zoned.day(), z.day as i8);
    }
}

#[test]
fn test_driver_monotone_and_peek() {
    let mut driver = make_driver("*/7 * * * * UTC", "2024-06-01T00:00:00Z");
    // peeking does not move the cursor
    let peeked = driver.find_next_timestamp().unwrap();
    let peeked_again = driver.find_next_timestamp().unwrap();
    assert_eq!(peeked, peeked_again);
    // successive firings are strictly increasing
    let mut last = driver.next_timestamp().unwrap();
    assert_eq!(last, peeked);
    for _ in 0..20 {
        let next = driver.next_timestamp().unwrap();
        assert!(next > last);
        last = next;
    }
}

#[test]
fn test_round_trip_membership() {
    // every firing satisfies every field of the schedule
    let mut driver = make_driver(
        "15,45 8-10 1,15 * * America/New_York",
        "2024-03-01T00:00:00Z",
    );
    let tz = jiff::tz::TimeZone::get("America/New_York").unwrap();
    let start: jiff::Timestamp = "2024-03-01T00:00:00Z".parse().unwrap();
    let mut last_ms = start.as_millisecond();
    for _ in 0..12 {
        let z = driver.next_zoned().unwrap();
        assert!(z.ms > last_ms);
        last_ms = z.ms;
        let zoned = jiff::Timestamp::from_millisecond(z.ms)
            .unwrap()
            .to_zoned(tz.clone());
        assert!(zoned.minute() == 15 || zoned.minute() == 45);
        assert!((8..=10).contains(&zoned.hour()));
        assert!(zoned.day() == 1 || zoned.day() == 15);
        assert_eq!(zoned.second(), 0);
    }
}

#[test]
fn test_dst_transition_is_handled_in_zone() {
    // America/New_York springs forward on 2024-03-10: 02:30 does not exist
    // that day. The solver must skip the nonexistent local time and go on.
    let mut driver = make_driver("30 2 * * * America/New_York", "2024-03-09T00:00:00-05:00");
    assert_next(&mut driver, "2024-03-09T02:30:00-05:00[America/New_York]");
    // the next 02:30 after the gap day
    let z = driver.next_zoned().unwrap();
    assert_eq!((z.month, z.day), (3, 11));
    assert_eq!((z.hour, z.minute), (2, 30));
}

#[test]
fn test_driver_option_default_has_no_end() {
    let opt = cronexpr::DriverOption::default();
    assert!(opt.end_ms.is_none());
}

#[test]
fn test_calendar_edge_is_an_error() {
    // So close to the calendar's upper edge that the four-year search
    // bound cannot be computed: the failure surfaces as an error.
    let crontab = parse_crontab("0 0 1 1 * UTC").unwrap();
    let max_ms = jiff::Timestamp::MAX.as_millisecond();
    let err = crontab.find_next(max_ms).unwrap_err();
    assert!(!err.message().is_empty());
}
