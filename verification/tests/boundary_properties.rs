//! The civil-date reference algorithm is anchored to known constants.

use speedate::int_parse_str;

/// Howard Hinnant's `days_from_civil`: days from 1970-01-01 to y-m-d
/// in the proleptic Gregorian calendar.
fn ref_days_from_civil(y: i64, m: u32, d: u32) -> i64 {
    let y = if m <= 2 { y - 1 } else { y };
    let era = y.div_euclid(400);
    let yoe = y - era * 400; // [0, 399]
    let mp = (m as i64 + 9) % 12; // [0, 11]
    let doy = (153 * mp + 2) / 5 + d as i64 - 1; // [0, 365]
    let doe = yoe * 365 + yoe / 4 - yoe / 100 + doy; // [0, 146096]
    era * 146097 + doe - 719468
}

/// Howard Hinnant's `civil_from_days`, the exact inverse of `ref_days_from_civil`.
fn ref_civil_from_days(z: i64) -> (i64, u32, u32) {
    let z = z + 719468;
    let era = z.div_euclid(146097);
    let doe = z - era * 146097; // [0, 146096]
    let yoe = (doe - doe / 1460 + doe / 36524 - doe / 146096) / 365; // [0, 399]
    let y = yoe + era * 400;
    let doy = doe - (365 * yoe + yoe / 4 - yoe / 100); // [0, 365]
    let mp = (5 * doy + 2) / 153; // [0, 11]
    let d = (doy - (153 * mp + 2) / 5 + 1) as u32; // [1, 31]
    let m = (if mp < 10 { mp + 3 } else { mp - 9 }) as u32; // [1, 12]
    (if m <= 2 { y + 1 } else { y }, m, d)
}

#[test]
fn oracle_self_check_anchors() {
    assert_eq!(ref_days_from_civil(1970, 1, 1), 0);
    assert_eq!(ref_days_from_civil(1600, 1, 1), -135_140);
    assert_eq!(ref_days_from_civil(0, 1, 1), -719_528);
    assert_eq!(ref_days_from_civil(2000, 2, 29), 11_016);
    assert_eq!(ref_days_from_civil(2401, 1, 1), 157_420);
    // the oracle must be its own inverse across the whole supported range
    let mut days = ref_days_from_civil(0, 1, 1);
    let end = ref_days_from_civil(2401, 1, 1);
    while days < end {
        let (y, m, d) = ref_civil_from_days(days);
        assert_eq!(
            ref_days_from_civil(y, m, d),
            days,
            "oracle inverse failed for days={days}"
        );
        days += 997;
    }
}

/// Day numbers and the timestamps around the second and millisecond watershed, as text.
#[test]
fn day_numbers_and_timestamps_parse_back() {
    let mut days = ref_days_from_civil(1600, 1, 1);
    let end = ref_days_from_civil(2401, 1, 1);
    while days < end {
        let timestamp = days * 86400;
        assert_eq!(int_parse_str(&timestamp.to_string()), Some(timestamp));
        days += 997;
    }
    for delta in -2_000..=2_000i64 {
        for base in [20_000_000_000i64, -20_000_000_000] {
            let v = base + delta;
            assert_eq!(int_parse_str(&v.to_string()), Some(v));
        }
    }
}
