use bot_rs::datetime::{from_epoch_seconds, key_of, DateTime};

fn dt(year: u16, month: u8, day: u8, hour: u8, minute: u8, second: u8) -> DateTime {
    DateTime { year, month, day, hour, minute, second }
}

#[test]
fn epoch_zero_is_the_epoch_instant() {
    assert_eq!(from_epoch_seconds(0), dt(1970, 1, 1, 0, 0, 0));
    assert_eq!(from_epoch_seconds(86400), dt(1970, 1, 2, 0, 0, 0));
}

#[test]
fn the_billionth_second() {
    assert_eq!(from_epoch_seconds(1_000_000_000), dt(2001, 9, 9, 1, 46, 40));
}

#[test]
fn last_covered_second() {
    assert_eq!(from_epoch_seconds(4_102_444_799), dt(2099, 12, 31, 23, 59, 59));
}

#[test]
fn key_of_inverts_from_epoch_seconds() {
    for &secs in &[0u64, 1, 59, 86399, 86400, 951_868_800, 1_000_000_000, 4_102_444_799] {
        let t = from_epoch_seconds(secs);
        assert_eq!(key_of(&t), secs);
    }
}

#[test]
fn leap_and_non_leap_february() {
    // 2000-02-29 00:00:00
    assert_eq!(from_epoch_seconds(951_782_400), dt(2000, 2, 29, 0, 0, 0));
    // 2096 is a leap year; the century rule only bites at 2100.
    assert_eq!(from_epoch_seconds(3_981_312_000), dt(2096, 2, 29, 0, 0, 0));
}
