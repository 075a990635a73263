use chatroom::clock::{day_start, today_window, DAY_MS};

#[test]
fn day_start_exact_values() {
    let noon_utc: i64 = 1_700_000_000_000 - 1_700_000_000_000 % DAY_MS + 12 * 3_600_000;
    let midnight_utc = noon_utc - 12 * 3_600_000;
    assert_eq!(day_start(noon_utc, 0), midnight_utc);
    // Two hours ahead of UTC: the local day began at 22:00 UTC the day before.
    assert_eq!(day_start(noon_utc, 7_200), midnight_utc - 2 * 3_600_000);
    // Thirteen hours behind: local time is 23:00 the day before.
    assert_eq!(day_start(noon_utc, -13 * 3_600), midnight_utc - DAY_MS + 13 * 3_600_000);
    assert_eq!(day_start(0, 0), 0);
    assert_eq!(day_start(-1, 0), -DAY_MS);
}

#[test]
fn today_window_holds_now() {
    let (now, start) = today_window();
    assert!(start <= now && now < start + DAY_MS);
}
