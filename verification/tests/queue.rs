use muxget::queue::{now_minutes, parse_now, parse_window, Now, Queue};

fn noon(weekday: u8, date: &str) -> Now {
    Now { minutes: 12 * 60, weekday, date: date.to_string() }
}

#[test]
fn a_full_spec_parses_every_part() {
    let mut q = Queue::new(0, "default", 3);
    assert!(q.set_spec("22:00-06:00 mon-fri sync=6h retry=3 quota=150MB/4h once shutdown after=notify-send done"));
    assert_eq!(q.schedule, Some((22 * 60, 6 * 60)));
    assert_eq!(q.days, 0b0011111, "mon..fri");
    assert_eq!(q.sync, Some(6 * 60));
    assert_eq!(q.retry, 3);
    assert_eq!(q.quota, Some((150 * 1024 * 1024, 4 * 60)));
    assert!(q.once && q.shutdown);
    assert_eq!(q.after, "notify-send done", "the command keeps its spaces");
}

#[test]
fn weekdays_dates_and_quotas_all_close_the_window() {
    let mut q = Queue::new(0, "default", 3);
    assert!(q.set_spec("09:00-17:00 mon,wed"));
    assert!(q.open_now(&noon(1, "2026-08-03")), "monday");
    assert!(!q.open_now(&noon(2, "2026-08-04")), "tuesday");

    assert!(q.set_spec("on=2026-08-01"));
    assert!(q.open_now(&noon(6, "2026-08-01")));
    assert!(!q.open_now(&noon(7, "2026-08-02")), "another day");

    assert!(q.set_spec("quota=1MB/4h"));
    assert!(q.open_now(&noon(1, "2026-08-03")), "quota unspent");
    q.used = 2 * 1024 * 1024;
    assert!(!q.open_now(&noon(1, "2026-08-03")), "quota spent");
}

#[test]
fn a_window_may_wrap_past_midnight() {
    let night = parse_window("22:00-06:00").unwrap();
    assert_eq!(night, (22 * 60, 6 * 60));
    let mut q = Queue::new(0, "night", 3);
    q.schedule = Some(night);
    assert!(q.open_at(23 * 60));
    assert!(q.open_at(5 * 60));
    assert!(!q.open_at(12 * 60));
    assert_eq!(q.window(), "22:00-06:00");
    assert!(parse_window("25:00-06:00").is_none());
    assert!(parse_window("nonsense").is_none());
}

#[test]
fn a_queue_without_a_schedule_is_always_open() {
    let q = Queue::new(0, "default", 3);
    assert!(!q.scheduled());
    assert!(q.open_at(0));
    assert!(q.open_now(&noon(3, "2026-08-05")));
}

#[test]
fn a_new_spec_replaces_the_old_one_whole() {
    let mut q = Queue::new(0, "default", 3);
    assert!(q.set_spec("retry=2 mon"));
    q.paused = true;
    assert!(!q.set_spec("retry=two"), "a part that does not read is reported");
    assert_eq!(q.retry, 0, "nothing of the old schedule is left");
    assert_eq!(q.days, 0);
    assert!(q.paused, "only the pause survives");
    assert!(q.set_spec(""));
    assert!(!q.scheduled(), "empty clears it");
}

#[test]
fn the_clock_reads_from_its_text() {
    let now = parse_now("13:45 3 2026-08-05").unwrap();
    assert_eq!((now.minutes, now.weekday, now.date.as_str()), (13 * 60 + 45, 3, "2026-08-05"));
    assert_eq!(now_minutes("13:45 3 2026-08-05"), Some(13 * 60 + 45));
    assert_eq!(now_minutes("24:00 3 2026-08-05"), None, "no such hour");
    assert_eq!(now_minutes("13:45"), None, "a clock needs its day too");
}
