use ningshi::clock::{clock_at, clock_or_late, now_parts, parse_tz, Clock, LAST_DAY, LAST_UTC_SECOND};

#[test]
fn only_fixed_offsets_are_known() {
    assert_eq!(parse_tz("UTC"), Some(0));
    assert_eq!(parse_tz(" UTC+8 "), Some(28800));
    assert_eq!(parse_tz("UTC-5"), Some(-18000));
    assert_eq!(parse_tz("UTC+0"), Some(0));
    assert_eq!(parse_tz("UTC8"), None);
    assert_eq!(parse_tz("UTC9"), None);
    assert_eq!(parse_tz("UTC+"), None);
    assert_eq!(parse_tz("auto"), None);
    assert_eq!(parse_tz("UTC+x"), None);
    assert_eq!(parse_tz(""), None);
    assert_eq!(parse_tz("utc"), None);
}

#[test]
fn an_offset_is_whole_hours_or_none() {
    // 596523 hours are the most that fit.
    assert_eq!(parse_tz("UTC+596523"), Some(596523 * 3600));
    assert_eq!(parse_tz("UTC+596524"), None);
    assert_eq!(parse_tz("UTC-596523"), Some(-596523 * 3600));
    assert_eq!(parse_tz("UTC-596524"), None);
    assert_eq!(parse_tz("UTC+1193047"), None);
}

#[test]
fn a_time_at_the_calendars_end_comes_back() {
    assert_eq!(clock_or_late(0, Some(3600)), Ok(Clock { epoch: 0, minute: 60, day: 719163, weekday: 4 }));
    let end = LAST_UTC_SECOND;
    // The last day has its date in UTC and west of it to the end ...
    assert_eq!(clock_or_late(end, None), Ok(Clock { epoch: end as u64, minute: 1439, day: LAST_DAY, weekday: clock_at(end, None).weekday }));
    assert_eq!(clock_or_late(end, Some(-3600)).unwrap().minute, 22 * 60 + 59);
    let west = clock_or_late(end, Some(-86399)).unwrap();
    assert_eq!((west.minute, west.day), (0, LAST_DAY));
    assert_eq!(clock_or_late(end - 1, Some(-86399)).unwrap().day, LAST_DAY - 1);
    // ... and east of it as long as the local day lasts.
    assert_eq!(clock_or_late(end, Some(3600)), Err(end));
    assert_eq!(clock_or_late(end - 3599, Some(3600)), Err(end - 3599));
    assert_eq!(clock_or_late(end - 3600, Some(3600)).unwrap().day, LAST_DAY);
    // An offset of a day or more is UTC.
    assert_eq!(clock_or_late(end, Some(86400)), clock_or_late(end, None));
}

#[test]
fn the_epoch_was_a_thursday() {
    assert_eq!(clock_at(0, None), Clock { epoch: 0, minute: 0, day: 719163, weekday: 4 });
    assert_eq!(clock_at(0, Some(-3600)), Clock { epoch: 0, minute: 23 * 60, day: 719162, weekday: 3 });
}

#[test]
fn the_timezone_moves_the_local_day() {
    // 2024-02-29 20:30:15 UTC, a Thursday.
    let t = 1709238615;
    assert_eq!(clock_at(t, Some(0)), Clock { epoch: t as u64, minute: 1230, day: 738945, weekday: 4 });
    // UTC+8: 2024-03-01 04:30:15, a Friday.
    assert_eq!(clock_at(t, Some(28800)), Clock { epoch: t as u64, minute: 270, day: 738946, weekday: 5 });
}

#[test]
fn an_offset_of_a_day_or_more_is_utc() {
    let t = 1709238615;
    assert_eq!(clock_at(t, Some(86400)), clock_at(t, None));
    assert_eq!(clock_at(t, Some(-86400)), clock_at(t, None));
    assert_ne!(clock_at(t, Some(86399)), clock_at(t, None));
}

#[test]
fn the_calendar_reaches_its_end() {
    let c = clock_at(LAST_UTC_SECOND - 86399, Some(86399));
    assert_eq!(c.day, 95745399);
}

#[test]
fn the_current_time_is_read() {
    let c = now_parts(Some(0)).unwrap();
    assert!(c.epoch > 1_600_000_000);
    assert_eq!(c, clock_at(c.epoch as i64, Some(0)));
}

#[test]
fn the_day_turns_at_local_midnight() {
    // 2024-02-29 15:59:59 UTC is the last second of the day in UTC+8.
    let t = 1709222399;
    let a = clock_at(t, Some(28800));
    let b = clock_at(t + 1, Some(28800));
    assert_eq!((a.minute, a.weekday), (1439, 4));
    assert_eq!((b.minute, b.weekday, b.day), (0, 5, a.day + 1));
}
