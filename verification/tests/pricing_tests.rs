use fluxion::pricing::{
    grid_fee_at, parse_czech_date, parse_hdo_sensor_data, parse_time_ranges, HdoCache, HdoDaySchedule,
    HdoTimeRange,
};
use fluxion::time::{CalendarDate, TimeOfDay, UtcDateTime};

fn date(y: i32, m: u32, d: u32) -> CalendarDate {
    CalendarDate::from_ymd_opt(y, m, d).unwrap()
}

fn time(h: u32, m: u32, s: u32) -> TimeOfDay {
    TimeOfDay::from_hms_opt(h, m, s).unwrap()
}

fn at(y: i32, mo: u32, d: u32, h: u32, mi: u32, s: u32) -> UtcDateTime {
    UtcDateTime::from_ymd_hms_opt(y, mo, d, h, mi, s).unwrap()
}

#[test]
fn test_parse_czech_date() {
    assert_eq!(parse_czech_date("14.01.2026"), Some(date(2026, 1, 14)));
    assert_eq!(parse_czech_date("31.12.2025"), Some(date(2025, 12, 31)));
    assert_eq!(parse_czech_date("invalid"), None);
    assert_eq!(parse_czech_date("14-01-2026"), None);
}

#[test]
fn test_parse_time_ranges() {
    let ranges = parse_time_ranges("00:00-06:00; 07:00-09:00; 10:00-13:00");
    assert_eq!(ranges.len(), 3);

    assert_eq!(ranges[0].start, time(0, 0, 0));
    assert_eq!(ranges[0].end, time(6, 0, 0));

    assert_eq!(ranges[1].start, time(7, 0, 0));
    assert_eq!(ranges[1].end, time(9, 0, 0));

    assert_eq!(ranges[2].start, time(10, 0, 0));
    assert_eq!(ranges[2].end, time(13, 0, 0));
}

#[test]
fn test_parse_time_ranges_with_24_hour() {
    let ranges = parse_time_ranges("17:00-24:00");
    assert_eq!(ranges.len(), 1);
    assert_eq!(ranges[0].start, time(17, 0, 0));
    // 24:00 should be converted to 23:59:59
    assert_eq!(ranges[0].end, time(23, 59, 59));
}

#[test]
fn test_hdo_cache_is_low_tariff() {
    let mut cache = HdoCache::new(3600);

    let schedule = HdoDaySchedule {
        date: date(2026, 1, 14),
        low_tariff_ranges: vec![
            HdoTimeRange { start: time(0, 0, 0), end: time(6, 0, 0) },
            HdoTimeRange { start: time(10, 0, 0), end: time(14, 0, 0) },
        ],
    };
    cache.update(vec![schedule]);

    // Within first low tariff range
    assert_eq!(cache.is_low_tariff(at(2026, 1, 14, 3, 0, 0)), Some(true));
    // Within second low tariff range
    assert_eq!(cache.is_low_tariff(at(2026, 1, 14, 12, 0, 0)), Some(true));
    // Outside low tariff ranges (high tariff)
    assert_eq!(cache.is_low_tariff(at(2026, 1, 14, 8, 0, 0)), Some(false));
    // Date not in cache
    assert_eq!(cache.is_low_tariff(at(2026, 1, 15, 3, 0, 0)), None);
}

#[test]
fn test_parse_hdo_sensor_data() {
    let json_data = r#"{
        "data": {
            "signals": [
                {
                    "signal": "EVV1",
                    "datum": "14.01.2026",
                    "casy": "00:00-06:00; 07:00-09:00"
                }
            ]
        }
    }"#;

    let schedules = parse_hdo_sensor_data(json_data);
    assert_eq!(schedules.len(), 1);
    assert_eq!(schedules[0].date, date(2026, 1, 14));
    assert_eq!(schedules[0].low_tariff_ranges.len(), 2);
}

#[test]
fn test_parse_hdo_sensor_data_ha_structure() {
    let json_data = r#"{
        "entity_id": "sensor.cez_hdo_raw_data",
        "state": "17:00:00",
        "attributes": {
            "response_json": {
                "data": {
                    "signals": [
                        {
                            "signal": "EVV1",
                            "den": "Čtvrtek",
                            "datum": "15.01.2026",
                            "casy": "00:00-06:00;   07:00-09:00;   10:00-13:00;   14:00-16:00;   17:00-24:00"
                        },
                        {
                            "signal": "EVV1",
                            "den": "Pátek",
                            "datum": "16.01.2026",
                            "casy": "00:00-06:00;   07:00-09:00"
                        }
                    ]
                }
            },
            "friendly_name": "cez_hdo_LowTariffStart"
        }
    }"#;

    let schedules = parse_hdo_sensor_data(json_data);
    assert_eq!(schedules.len(), 2);
    assert_eq!(schedules[0].date, date(2026, 1, 15));
    assert_eq!(schedules[0].low_tariff_ranges.len(), 5);
    assert_eq!(schedules[1].date, date(2026, 1, 16));
    assert_eq!(schedules[1].low_tariff_ranges.len(), 2);
}

#[test]
fn test_parse_hdo_sensor_data_raw_json_structure() {
    let json_data = r#"{
        "entity_id": "sensor.cez_hdo_raw_data",
        "state": "21.01.2026 19:34",
        "attributes": {
            "raw_json": {
                "timestamp": "2026-01-21T19:34:57.476005",
                "data": {
                    "data": {
                        "signals": [
                            {
                                "signal": "EVV1",
                                "den": "Středa",
                                "datum": "21.01.2026",
                                "casy": "00:00-06:00;   07:00-09:00;   10:00-13:00;   14:00-16:00;   17:00-24:00"
                            },
                            {
                                "signal": "EVV1",
                                "den": "Čtvrtek",
                                "datum": "22.01.2026",
                                "casy": "00:00-06:00;   07:00-09:00"
                            }
                        ],
                        "amm": false,
                        "switchClock": false
                    },
                    "statusCode": 200
                }
            },
            "icon": "mdi:home-clock",
            "friendly_name": "ČEZ HDO surová data"
        }
    }"#;

    let schedules = parse_hdo_sensor_data(json_data);
    assert_eq!(schedules.len(), 2);
    assert_eq!(schedules[0].date, date(2026, 1, 21));
    assert_eq!(schedules[0].low_tariff_ranges.len(), 5);
    assert_eq!(schedules[1].date, date(2026, 1, 22));
    assert_eq!(schedules[1].low_tariff_ranges.len(), 2);
}

#[test]
fn test_calculate_effective_price() {
    let mut cache = HdoCache::new(3600);
    let schedule = HdoDaySchedule {
        date: date(2026, 1, 14),
        low_tariff_ranges: vec![HdoTimeRange { start: time(0, 0, 0), end: time(6, 0, 0) }],
    };
    cache.update(vec![schedule]);

    let low_tariff: f32 = 0.50;
    let high_tariff: f32 = 1.80;
    let spot_price: f32 = 2.0;

    // During low tariff (3:00)
    let eff_low = spot_price + grid_fee_at(&cache, at(2026, 1, 14, 3, 0, 0), low_tariff, high_tariff);
    assert!((eff_low - 2.50).abs() < 0.001);

    // During high tariff (8:00)
    let eff_high = spot_price + grid_fee_at(&cache, at(2026, 1, 14, 8, 0, 0), low_tariff, high_tariff);
    assert!((eff_high - 3.80).abs() < 0.001);

    // Unknown date (defaults to high)
    let eff_unknown =
        spot_price + grid_fee_at(&cache, at(2026, 1, 15, 3, 0, 0), low_tariff, high_tariff);
    assert!((eff_unknown - 3.80).abs() < 0.001);
}

#[test]
fn overnight_range_wraps_midnight() {
    let mut cache = HdoCache::new(60);
    cache.update(vec![HdoDaySchedule {
        date: date(2026, 2, 1),
        low_tariff_ranges: vec![HdoTimeRange { start: time(22, 0, 0), end: time(6, 0, 0) }],
    }]);
    assert_eq!(cache.is_low_tariff(at(2026, 2, 1, 23, 30, 0)), Some(true));
    assert_eq!(cache.is_low_tariff(at(2026, 2, 1, 5, 59, 59)), Some(true));
    assert_eq!(cache.is_low_tariff(at(2026, 2, 1, 6, 0, 0)), Some(false));
    assert_eq!(cache.is_low_tariff(at(2026, 2, 1, 12, 0, 0)), Some(false));
}

#[test]
fn later_schedule_for_a_date_wins_and_update_replaces() {
    let mut cache = HdoCache::default();
    cache.update(vec![
        HdoDaySchedule {
            date: date(2026, 3, 3),
            low_tariff_ranges: vec![HdoTimeRange { start: time(0, 0, 0), end: time(6, 0, 0) }],
        },
        HdoDaySchedule {
            date: date(2026, 3, 3),
            low_tariff_ranges: vec![HdoTimeRange { start: time(12, 0, 0), end: time(13, 0, 0) }],
        },
    ]);
    assert_eq!(cache.is_low_tariff(at(2026, 3, 3, 3, 0, 0)), Some(false));
    assert_eq!(cache.is_low_tariff(at(2026, 3, 3, 12, 30, 0)), Some(true));

    cache.update(vec![HdoDaySchedule {
        date: date(2026, 3, 4),
        low_tariff_ranges: vec![HdoTimeRange { start: time(0, 0, 0), end: time(6, 0, 0) }],
    }]);
    assert_eq!(cache.is_low_tariff(at(2026, 3, 3, 12, 30, 0)), None);
    assert_eq!(cache.is_low_tariff(at(2026, 3, 4, 1, 0, 0)), Some(true));
}

#[test]
fn cache_refresh_is_due_until_updated() {
    let mut cache = HdoCache::new(3600);
    assert!(cache.needs_refresh());
    let now = at(2026, 1, 14, 12, 0, 0);
    cache.update_at(Vec::new(), now);
    assert!(!cache.needs_refresh_at(now));
    assert!(!cache.needs_refresh_at(at(2026, 1, 14, 13, 0, 0)));
    assert!(cache.needs_refresh_at(at(2026, 1, 14, 13, 0, 1)));
    // A clock that went backwards reads as a huge age.
    assert!(cache.needs_refresh_at(at(2026, 1, 14, 11, 59, 59)));
    cache.update(Vec::new());
    assert!(!cache.needs_refresh());
}

#[test]
fn parsing_edge_cases() {
    assert_eq!(parse_czech_date("  01.02.2026 "), Some(date(2026, 2, 1)));
    assert_eq!(parse_czech_date("30.02.2026"), None);
    assert_eq!(parse_czech_date("1.2"), None);
    assert_eq!(parse_czech_date("+1.+2.-44"), Some(date(-44, 2, 1)));
    let ranges = parse_time_ranges(" ; 25:00-26:00; 08:00-09:30;;x-y; 1:2-3:4-5:6");
    assert_eq!(ranges.len(), 1);
    assert_eq!(ranges[0].start, time(8, 0, 0));
    assert_eq!(ranges[0].end, time(9, 30, 0));
    assert!(parse_time_ranges("").is_empty());
    assert!(parse_hdo_sensor_data("not json").is_empty());
    assert!(parse_hdo_sensor_data(r#"{"data": {"other": []}}"#).is_empty());
    // A day whose periods do not parse gives no schedule.
    assert!(parse_hdo_sensor_data(
        r#"{"data": {"signals": [{"datum": "14.01.2026", "casy": "nonsense"}]}}"#
    )
    .is_empty());
}

use fluxion::pricing::update_hdo_cache;

#[test]
fn sensor_data_refreshes_the_cache_only_when_it_has_schedules() {
    let mut cache = HdoCache::new(3600);
    update_hdo_cache(&mut cache, "garbage");
    assert!(cache.needs_refresh());
    assert_eq!(cache.is_low_tariff(at(2026, 1, 14, 3, 0, 0)), None);

    update_hdo_cache(
        &mut cache,
        r#"{"data": {"signals": [{"datum": "14.01.2026", "casy": "00:00-06:00"}]}}"#,
    );
    assert!(!cache.needs_refresh());
    assert_eq!(cache.is_low_tariff(at(2026, 1, 14, 3, 0, 0)), Some(true));

    // Data without schedules keeps what the cache holds.
    update_hdo_cache(&mut cache, r#"{"data": {"signals": []}}"#);
    assert_eq!(cache.is_low_tariff(at(2026, 1, 14, 3, 0, 0)), Some(true));
}

#[test]
fn a_printed_date_parses_back() {
    for d in [date(7, 3, 5), date(2024, 2, 29), date(9999, 12, 31), date(0, 1, 1)] {
        let s = format!("{:02}.{:02}.{:04}", d.day, d.month, d.year);
        assert_eq!(parse_czech_date(&s), Some(d));
    }
    assert_eq!(parse_czech_date("05.03.0007"), Some(date(7, 3, 5)));
    assert_eq!(parse_czech_date("29.02.2023"), None);
}

#[test]
fn freshness_spans_midnight_and_month_ends() {
    let mut cache = HdoCache::new(120);
    cache.update_at(Vec::new(), at(2025, 12, 31, 23, 59, 0));
    assert!(!cache.needs_refresh_at(at(2026, 1, 1, 0, 1, 0)));
    assert!(cache.needs_refresh_at(at(2026, 1, 1, 0, 1, 1)));
    cache.update_at(Vec::new(), at(2024, 2, 28, 23, 0, 0));
    // 2024 is a leap year: 29 February lies in between.
    assert!(cache.needs_refresh_at(at(2024, 3, 1, 0, 0, 0)));
}

#[test]
fn whole_seconds_between_moments() {
    let a = at(2025, 12, 31, 0, 0, 0);
    let b = at(2026, 1, 1, 0, 0, 30);
    assert_eq!(b.whole_seconds_since(&a), 86_430);
    assert_eq!(a.whole_seconds_since(&b), -86_430);
    assert_eq!(a.whole_seconds_since(&a), 0);
    let leap_day = at(2024, 3, 1, 0, 0, 0).whole_seconds_since(&at(2024, 2, 28, 0, 0, 0));
    assert_eq!(leap_day, 2 * 86_400);
}
