use moss::bytes::{read_timestamp, write_timestamp};
use moss::error::StorageError;
use moss::storage::Timestamp;
use moss::time::or_epoch;
use std::time::{Duration, SystemTime, UNIX_EPOCH};

#[test]
fn times_after_the_epoch() {
    let time = UNIX_EPOCH + Duration::new(12, 345_000_000);
    let stamp = Timestamp::from_system_time(time);
    assert_eq!(stamp, Timestamp { seconds: 12, nanoseconds: 345_000_000 });
    assert_eq!(stamp.to_system_time(), time);
}

#[test]
fn times_before_the_epoch() {
    let time = UNIX_EPOCH - Duration::new(1, 250_000_000);
    let stamp = Timestamp::from_system_time(time);
    assert_eq!(stamp, Timestamp { seconds: -2, nanoseconds: 750_000_000 });
    assert_eq!(stamp.to_system_time(), time);
    let whole = UNIX_EPOCH - Duration::new(3, 0);
    assert_eq!(
        Timestamp::from_system_time(whole),
        Timestamp { seconds: -3, nanoseconds: 0 }
    );
    assert_eq!(Timestamp { seconds: -3, nanoseconds: 0 }.to_system_time(), whole);
}

#[test]
fn distances_from_the_epoch() {
    assert_eq!(Timestamp { seconds: 5, nanoseconds: 7 }.distance(), (true, 5, 7));
    assert_eq!(
        Timestamp { seconds: -2, nanoseconds: 750_000_000 }.distance(),
        (false, 1, 250_000_000)
    );
    assert_eq!(Timestamp { seconds: i64::MIN, nanoseconds: 0 }.distance(), (false, 1 << 63, 0));
    assert_eq!(or_epoch(None), UNIX_EPOCH);
    let time = UNIX_EPOCH + Duration::new(1, 0);
    assert_eq!(or_epoch(Some(time)), time);
}

#[test]
fn the_clock_is_running() {
    let stamp = Timestamp::now();
    assert!(stamp.seconds > 1_500_000_000);
    assert!(stamp.nanoseconds < 1_000_000_000);
}

#[test]
fn timestamps_as_bytes() {
    let stamp = Timestamp { seconds: -2, nanoseconds: 750_000_000 };
    let mut bytes = Vec::new();
    write_timestamp(&mut bytes, stamp);
    assert_eq!(bytes, vec![254, 255, 255, 255, 255, 255, 255, 255, 128, 23, 180, 44]);
    let mut cursor = 0;
    assert_eq!(read_timestamp(&bytes, &mut cursor).ok().unwrap(), stamp);
    assert_eq!(cursor, 12);
    let mut cursor = 1;
    assert_eq!(read_timestamp(&bytes, &mut cursor).err(), Some(StorageError::UnexpectedEnd));
}

#[test]
fn clock_times_come_back() {
    let now = SystemTime::now();
    assert_eq!(Timestamp::from_system_time(now).to_system_time(), now);
    for (seconds, nanoseconds) in [(0, 0), (0, 100), (1, 999_999_900), (253_402_300_800, 500)] {
        let distance = Duration::new(seconds, nanoseconds);
        let after = UNIX_EPOCH + distance;
        assert_eq!(Timestamp::from_system_time(after).to_system_time(), after);
        let before = UNIX_EPOCH - distance.min(Duration::from_secs(11_000_000_000));
        assert_eq!(Timestamp::from_system_time(before).to_system_time(), before);
    }
}
