use fcoreutils::touch::{
    parse_date_string, parse_date_string_with_base, parse_touch_timestamp, resolve_date, CivilTime,
    DateError, DateSpec, DateValue, TouchStamp,
};

/// Seconds since the epoch of a civil time read as UTC; a local time differs
/// from it by the zone's offset, well under a day.
fn utc_seconds(c: &CivilTime) -> i64 {
    let (y, m, d) = (c.year as i64, c.month as i64, c.day as i64);
    let y = if m <= 2 { y - 1 } else { y };
    let era = if y >= 0 { y } else { y - 399 } / 400;
    let yoe = y - era * 400;
    let mp = (m + 9) % 12;
    let doy = (153 * mp + 2) / 5 + d - 1;
    let doe = yoe * 365 + yoe / 4 - yoe / 100 + doy;
    let days = era * 146097 + doe - 719468;
    days * 86400 + c.hour as i64 * 3600 + c.minute as i64 * 60 + c.second as i64
}

fn now() -> (i64, i64) {
    let d = std::time::SystemTime::now().duration_since(std::time::UNIX_EPOCH).unwrap();
    (d.as_secs() as i64, d.subsec_nanos() as i64)
}

fn stamp_seconds(t: &TouchStamp) -> i64 {
    utc_seconds(&CivilTime {
        year: t.year.unwrap_or(1970),
        month: t.month,
        day: t.day,
        hour: t.hour,
        minute: t.minute,
        second: t.second,
    })
}

#[test]
fn test_parse_date_string_iso() {
    let spec = parse_date_string("2023-01-15").unwrap();
    let sec = match spec {
        DateSpec::Local(c, _nsec) => utc_seconds(&c),
        other => panic!("unexpected {:?}", other),
    };
    assert!(sec > 1673600000);
    assert!(sec < 1673900000);
}

#[test]
fn test_parse_date_string_epoch() {
    let (sec, nsec) = match parse_date_string("@1000000000").unwrap() {
        DateSpec::Epoch(s, n) => (s, n),
        other => panic!("unexpected {:?}", other),
    };
    assert_eq!(sec, 1000000000);
    assert_eq!(nsec, 0);
}

#[test]
fn test_parse_date_string_epoch_frac() {
    let (sec, nsec) = match parse_date_string("@1000000000.5").unwrap() {
        DateSpec::Epoch(s, n) => (s, n),
        other => panic!("unexpected {:?}", other),
    };
    assert_eq!(sec, 1000000000);
    assert_eq!(nsec, 500000000);
}

#[test]
fn test_parse_date_string_now() {
    let sec = match parse_date_string_with_base("now", now()).unwrap() {
        DateValue::Instant(s, _) => s,
        other => panic!("unexpected {:?}", other),
    };
    assert!(sec > 1600000000);
}

#[test]
fn test_parse_date_string_invalid() {
    assert!(parse_date_string("not-a-date").is_err());
}

#[test]
fn test_parse_touch_timestamp_ccyymmddhhmm() {
    let t = parse_touch_timestamp("202301151030").unwrap();
    let sec = stamp_seconds(&t);
    assert!(sec > 1673600000);
}

#[test]
fn test_parse_touch_timestamp_with_seconds() {
    let t = parse_touch_timestamp("202301151030.45").unwrap();
    assert_eq!(t.second, 45);
    let sec = stamp_seconds(&t);
    assert!(sec > 1673600000);
}

#[test]
fn test_parse_touch_timestamp_invalid() {
    assert!(parse_touch_timestamp("abc").is_err());
}

#[test]
fn relative_words_resolve_against_the_base() {
    let base = (1_000_000, 123);
    assert_eq!(parse_date_string_with_base("NOW", base), Ok(DateValue::Instant(1_000_000, 123)));
    assert_eq!(parse_date_string_with_base(" yesterday ", base), Ok(DateValue::Instant(913_600, 0)));
    assert_eq!(parse_date_string_with_base("Tomorrow", base), Ok(DateValue::Instant(1_086_400, 0)));
    assert_eq!(parse_date_string_with_base("3 days ago", base), Ok(DateValue::Instant(740_800, 0)));
    assert_eq!(parse_date_string_with_base("2 days", base), Ok(DateValue::Instant(1_172_800, 0)));
    assert_eq!(parse_date_string_with_base("1 day", base), Ok(DateValue::Instant(1_086_400, 0)));
    assert_eq!(parse_date_string_with_base("-3 days", base), Ok(DateValue::Instant(740_800, 0)));
}

#[test]
fn days_ago_mirrors_negative_days() {
    let base = (5_000_000, 0);
    assert_eq!(
        parse_date_string_with_base("4 days ago", base),
        parse_date_string_with_base("-4 days", base)
    );
    assert_eq!(
        resolve_date(DateSpec::DaysBefore(4), base),
        resolve_date(DateSpec::DaysAfter(-4), base)
    );
}

#[test]
fn epoch_forms() {
    assert_eq!(parse_date_string("@-5"), Ok(DateSpec::Epoch(-5, 0)));
    assert_eq!(parse_date_string("@12.000000001"), Ok(DateSpec::Epoch(12, 1)));
    assert_eq!(parse_date_string("@12.1234567899"), Ok(DateSpec::Epoch(12, 123456789)));
    assert_eq!(parse_date_string("@x"), Err(DateError::InvalidDate));
    assert_eq!(parse_date_string("@1.x"), Err(DateError::InvalidDate));
}

#[test]
fn iso_forms() {
    let c = CivilTime { year: 2023, month: 6, day: 15, hour: 10, minute: 30, second: 0 };
    assert_eq!(parse_date_string("2023-06-15T10:30:00"), Ok(DateSpec::Local(c, 0)));
    assert_eq!(parse_date_string("2023-06-15 10:30"), Ok(DateSpec::Local(c, 0)));
    let c2 = CivilTime { second: 7, ..c };
    assert_eq!(parse_date_string("2023-06-15 10:30:07.25"), Ok(DateSpec::Local(c2, 250_000_000)));
    assert_eq!(parse_date_string("2023-13-01"), Err(DateError::InvalidDate));
    assert_eq!(parse_date_string("2023-06-15 24:00"), Err(DateError::InvalidDate));
    assert_eq!(parse_date_string("2023-06-15 10"), Err(DateError::InvalidDate));
    assert_eq!(parse_date_string("2023-06"), Err(DateError::InvalidDate));
}

#[test]
fn stamp_forms() {
    let t = parse_touch_timestamp("01151030").unwrap();
    assert_eq!(t, TouchStamp { year: None, month: 1, day: 15, hour: 10, minute: 30, second: 0 });
    let t = parse_touch_timestamp("6901151030").unwrap();
    assert_eq!(t.year, Some(1969));
    let t = parse_touch_timestamp("6801151030").unwrap();
    assert_eq!(t.year, Some(2068));
    assert_eq!(parse_touch_timestamp("202301151030.61"), Err(DateError::InvalidFormat));
    assert_eq!(parse_touch_timestamp("202301151030.5"), Err(DateError::InvalidFormat));
    assert_eq!(parse_touch_timestamp("202313151030"), Err(DateError::InvalidFormat));
    assert_eq!(parse_touch_timestamp("2023011510"), Err(DateError::InvalidFormat));
}

#[test]
fn epoch_seconds_read_back() {
    for n in [0i64, 1, -1, 1_000_000_000, i64::MAX, i64::MIN] {
        assert_eq!(parse_date_string(&format!("@{}", n)), Ok(DateSpec::Epoch(n, 0)));
    }
}

#[test]
fn t_and_space_separators_agree() {
    for (a, b) in [
        ("2023-06-15T10:30", "2023-06-15 10:30"),
        ("2023-06-15T10:30:07.5", "2023-06-15 10:30:07.5"),
        ("2023-13-15T10:30", "2023-13-15 10:30"),
    ] {
        assert_eq!(parse_date_string(a), parse_date_string(b));
    }
}

#[test]
fn stamp_and_date_agree() {
    let t = parse_touch_timestamp("202301151030.45").unwrap();
    match parse_date_string("2023-01-15 10:30:45") {
        Ok(DateSpec::Local(c, 0)) => {
            assert_eq!(t.year, Some(c.year));
            assert_eq!((t.month, t.day, t.hour, t.minute, t.second), (c.month, c.day, c.hour, c.minute, c.second));
        }
        other => panic!("unexpected {:?}", other),
    }
    assert!(parse_touch_timestamp("202313151030.45").is_err());
    assert!(parse_date_string("2023-13-15 10:30:45").is_err());
}
