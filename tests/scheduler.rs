use ticket_dashboard::scheduler::{SchedulerStart, SyncScheduler};

#[test]
fn test_interval_calculation() {
    let scheduler = SyncScheduler::new(30);
    assert_eq!(scheduler.interval_minutes, 30);
    assert_eq!(scheduler.interval_minutes * 60, 1800);
}

#[test]
fn test_disabled_scheduler() {
    let scheduler = SyncScheduler::new(0);
    assert_eq!(scheduler.interval_minutes, 0);
}

#[test]
fn scheduler_start_and_stop() {
    let mut off = SyncScheduler::new(0);
    assert_eq!(off.start(), SchedulerStart::Disabled);
    assert!(!off.is_running);
    let mut s = SyncScheduler::new(30);
    assert_eq!(s.start(), SchedulerStart::Started { period_secs: 1800 });
    assert_eq!(s.start(), SchedulerStart::AlreadyRunning);
    s.stop();
    assert!(!s.is_running);
    assert_eq!(s.start(), SchedulerStart::Started { period_secs: 1800 });
}
