//! Cron expressions and scheduled jobs.

use chrono::TimeZone;
use cuartel::agent::AgentType;
use cuartel::cron::{collect_due_jobs, CronError, CronExpr, ScheduledJob};
use cuartel::time::Timestamp;

fn utc(y: i32, mo: u32, d: u32, h: u32, mi: u32) -> Timestamp {
    let t = chrono::Utc.with_ymd_and_hms(y, mo, d, h, mi, 0).unwrap();
    Timestamp { secs: t.timestamp(), nanos: 0 }
}

#[test]
fn parse_every_minute() {
    let expr = CronExpr::parse("* * * * *").unwrap();
    assert!(expr.matches(&utc(2026, 1, 1, 0, 0)));
    assert!(expr.matches(&utc(2026, 6, 15, 12, 30)));
}

#[test]
fn parse_specific_values() {
    let expr = CronExpr::parse("30 9 * * *").unwrap();
    assert!(expr.matches(&utc(2026, 4, 16, 9, 30)));
    assert!(!expr.matches(&utc(2026, 4, 16, 9, 31)));
    assert!(!expr.matches(&utc(2026, 4, 16, 10, 30)));
}

#[test]
fn parse_range() {
    let expr = CronExpr::parse("0 9-17 * * *").unwrap();
    assert!(expr.matches(&utc(2026, 1, 1, 9, 0)));
    assert!(expr.matches(&utc(2026, 1, 1, 17, 0)));
    assert!(!expr.matches(&utc(2026, 1, 1, 8, 0)));
    assert!(!expr.matches(&utc(2026, 1, 1, 18, 0)));
}

#[test]
fn parse_step() {
    let expr = CronExpr::parse("*/15 * * * *").unwrap();
    assert!(expr.matches(&utc(2026, 1, 1, 0, 0)));
    assert!(expr.matches(&utc(2026, 1, 1, 0, 15)));
    assert!(expr.matches(&utc(2026, 1, 1, 0, 30)));
    assert!(expr.matches(&utc(2026, 1, 1, 0, 45)));
    assert!(!expr.matches(&utc(2026, 1, 1, 0, 10)));
}

#[test]
fn parse_range_with_step() {
    let expr = CronExpr::parse("0-30/10 * * * *").unwrap();
    assert!(expr.matches(&utc(2026, 1, 1, 0, 0)));
    assert!(expr.matches(&utc(2026, 1, 1, 0, 10)));
    assert!(expr.matches(&utc(2026, 1, 1, 0, 20)));
    assert!(expr.matches(&utc(2026, 1, 1, 0, 30)));
    assert!(!expr.matches(&utc(2026, 1, 1, 0, 40)));
}

#[test]
fn parse_list() {
    let expr = CronExpr::parse("0 8,12,18 * * *").unwrap();
    assert!(expr.matches(&utc(2026, 1, 1, 8, 0)));
    assert!(expr.matches(&utc(2026, 1, 1, 12, 0)));
    assert!(expr.matches(&utc(2026, 1, 1, 18, 0)));
    assert!(!expr.matches(&utc(2026, 1, 1, 10, 0)));
}

#[test]
fn parse_day_of_week() {
    let expr = CronExpr::parse("0 9 * * 1-5").unwrap();
    // A Thursday.
    assert!(expr.matches(&utc(2026, 4, 16, 9, 0)));
    // A Sunday.
    assert!(!expr.matches(&utc(2026, 4, 19, 9, 0)));
}

#[test]
fn parse_rejects_too_few_fields() {
    assert!(matches!(CronExpr::parse("* * *"), Err(CronError::TooFewFields(3))));
}

#[test]
fn parse_rejects_too_many_fields() {
    assert!(matches!(CronExpr::parse("* * * * * *"), Err(CronError::TooManyFields(6))));
}

#[test]
fn parse_rejects_out_of_range() {
    assert!(matches!(
        CronExpr::parse("60 * * * *"),
        Err(CronError::ValueOutOfRange { field: "minute", value: 60, .. })
    ));
    assert!(matches!(
        CronExpr::parse("* 25 * * *"),
        Err(CronError::ValueOutOfRange { field: "hour", value: 25, .. })
    ));
}

#[test]
fn parse_rejects_invalid_token() {
    assert!(matches!(
        CronExpr::parse("abc * * * *"),
        Err(CronError::InvalidField { field: "minute", .. })
    ));
}

#[test]
fn next_tick_every_minute() {
    let expr = CronExpr::parse("* * * * *").unwrap();
    let after = utc(2026, 4, 16, 12, 30);
    let next = expr.next_tick(&after).unwrap();
    assert_eq!(next, utc(2026, 4, 16, 12, 31));
}

#[test]
fn next_tick_specific_time() {
    let expr = CronExpr::parse("0 9 * * *").unwrap();
    let after = utc(2026, 4, 16, 10, 0);
    let next = expr.next_tick(&after).unwrap();
    assert_eq!(next, utc(2026, 4, 17, 9, 0));
}

#[test]
fn next_tick_same_day_future() {
    let expr = CronExpr::parse("0 18 * * *").unwrap();
    let after = utc(2026, 4, 16, 10, 0);
    let next = expr.next_tick(&after).unwrap();
    assert_eq!(next, utc(2026, 4, 16, 18, 0));
}

#[test]
fn next_tick_crosses_month() {
    let expr = CronExpr::parse("0 0 1 * *").unwrap();
    let after = utc(2026, 4, 16, 0, 0);
    let next = expr.next_tick(&after).unwrap();
    assert_eq!(next, utc(2026, 5, 1, 0, 0));
}

#[test]
fn next_tick_crosses_year() {
    let expr = CronExpr::parse("0 0 1 1 *").unwrap();
    let after = utc(2026, 6, 1, 0, 0);
    let next = expr.next_tick(&after).unwrap();
    assert_eq!(next, utc(2027, 1, 1, 0, 0));
}

#[test]
fn next_tick_step_minutes() {
    let expr = CronExpr::parse("*/15 * * * *").unwrap();
    let after = utc(2026, 4, 16, 12, 16);
    let next = expr.next_tick(&after).unwrap();
    assert_eq!(next, utc(2026, 4, 16, 12, 30));
}

#[test]
fn display_roundtrips() {
    let cases = ["* * * * *", "30 9 * * *", "*/15 * * * *", "0 9-17 * * 1-5"];
    for case in cases {
        let expr = CronExpr::parse(case).unwrap();
        let displayed = expr.to_string();
        let reparsed = CronExpr::parse(&displayed).unwrap();
        assert_eq!(expr, reparsed, "roundtrip failed for {case:?}");
    }
}

#[test]
fn scheduled_job_creation_computes_next_run() {
    let job = ScheduledJob::new(
        "j1".into(),
        "Daily lint".into(),
        "0 9 * * *".into(),
        AgentType::Pi,
        "Run lint".into(),
        "ws-1".into(),
    )
    .unwrap();
    assert!(job.next_run_at.is_some());
    assert!(job.enabled);
    assert!(job.last_run_at.is_none());
}

#[test]
fn scheduled_job_rejects_invalid_cron() {
    let err = ScheduledJob::new(
        "j2".into(),
        "Bad".into(),
        "bad expr".into(),
        AgentType::Pi,
        "".into(),
        "ws-1".into(),
    )
    .unwrap_err();
    assert!(matches!(err, CronError::TooFewFields(_)));
}

#[test]
fn is_due_checks_enabled_and_time() {
    let mut job = ScheduledJob::new(
        "j3".into(),
        "Test".into(),
        "* * * * *".into(),
        AgentType::Pi,
        "test".into(),
        "ws-1".into(),
    )
    .unwrap();
    let t = chrono::Utc::now() + chrono::Duration::hours(1);
    let future = Timestamp { secs: t.timestamp(), nanos: t.timestamp_subsec_nanos() };
    assert!(job.is_due(&future));

    job.enabled = false;
    assert!(!job.is_due(&future));
}

#[test]
fn advance_schedule_updates_last_and_next() {
    let mut job = ScheduledJob::new(
        "j4".into(),
        "Frequent".into(),
        "*/5 * * * *".into(),
        AgentType::ClaudeCode,
        "check".into(),
        "ws-1".into(),
    )
    .unwrap();
    assert!(job.last_run_at.is_none());
    assert!(job.next_run_at.is_some());
    job.advance_schedule().unwrap();
    assert!(job.last_run_at.is_some());
    assert!(job.next_run_at.is_some());
    assert!(!job.next_run_at.unwrap().not_after(&job.last_run_at.unwrap()));
}

#[test]
fn collect_due_jobs_filters_correctly() {
    let j1 = ScheduledJob {
        id: "a".into(),
        name: "A".into(),
        cron_expr: "* * * * *".into(),
        agent_type: AgentType::Pi,
        prompt: "a".into(),
        workspace_id: "ws".into(),
        enabled: true,
        last_run_at: None,
        next_run_at: Some(utc(2026, 1, 1, 0, 0)),
        created_at: utc(2026, 1, 1, 0, 0),
    };
    let j2 = ScheduledJob {
        id: "b".into(),
        name: "B".into(),
        cron_expr: "* * * * *".into(),
        agent_type: AgentType::Pi,
        prompt: "b".into(),
        workspace_id: "ws".into(),
        enabled: true,
        last_run_at: None,
        next_run_at: Some(utc(2028, 1, 1, 0, 0)),
        created_at: utc(2026, 1, 1, 0, 0),
    };
    let jobs = vec![j1, j2];
    let due = collect_due_jobs(&jobs, &utc(2026, 6, 1, 0, 0));
    assert_eq!(due.len(), 1);
    assert_eq!(due[0].id, "a");
}

#[test]
fn texts_are_written_canonically() {
    let cases = [
        ("5,1-3,*/2 * * * *", "5,1-3,*/2 * * * *"),
        ("0-30/10   0  1 1 0", "0-30/10 0 1 1 0"),
        ("+7 * * * *", "7 * * * *"),
        ("007 * * * *", "7 * * * *"),
    ];
    for (given, shown) in cases {
        assert_eq!(CronExpr::parse(given).unwrap().to_string(), shown, "{given:?}");
    }
}

#[test]
fn months_and_leap_days_are_found() {
    let leap = CronExpr::parse("0 0 29 2 *").unwrap();
    assert_eq!(leap.next_tick(&utc(2024, 3, 1, 0, 0)).unwrap(), utc(2028, 2, 29, 0, 0));
    let with_seconds = Timestamp { secs: utc(2026, 4, 16, 12, 30).secs + 59, nanos: 5 };
    let every = CronExpr::parse("* * * * *").unwrap();
    assert_eq!(every.next_tick(&with_seconds).unwrap(), utc(2026, 4, 16, 12, 31));
}

#[test]
fn a_day_that_never_comes_has_no_tick() {
    let never = CronExpr::parse("0 0 31 2 *").unwrap();
    assert!(matches!(never.next_tick(&utc(2026, 1, 1, 0, 0)), Err(CronError::NoNextTick)));
}

#[test]
fn step_and_range_errors_name_the_field() {
    for bad in ["*/0 * * * *", "5-60 * * * *", "1-x * * * *", ", * * * *"] {
        assert!(CronExpr::parse(bad).is_err(), "{bad:?}");
    }
    assert_eq!(
        CronExpr::parse("* * 0 * *").unwrap_err().message(),
        "cron day_of_month value 0 out of range [1, 31]"
    );
    assert_eq!(
        CronExpr::parse("* *").unwrap_err().message(),
        "expected 5 cron fields, got 2"
    );
}

#[test]
fn jobs_advance_from_the_given_time() {
    let mut job = ScheduledJob::new_at(
        "j".into(),
        "n".into(),
        "0 9 * * *".into(),
        AgentType::Codex,
        "p".into(),
        "ws".into(),
        utc(2026, 4, 16, 10, 0),
    )
    .unwrap();
    assert_eq!(job.next_run_at, Some(utc(2026, 4, 17, 9, 0)));
    job.advance_schedule_at(utc(2026, 4, 17, 9, 0)).unwrap();
    assert_eq!(job.last_run_at, Some(utc(2026, 4, 17, 9, 0)));
    assert_eq!(job.next_run_at, Some(utc(2026, 4, 18, 9, 0)));
    job.cron_expr = "nonsense".into();
    assert!(job.advance_schedule_at(utc(2026, 4, 18, 9, 0)).is_err());
}

#[test]
fn a_job_waits_for_its_next_tick() {
    let mut job = ScheduledJob::new_at(
        "j".into(),
        "n".into(),
        "*/30 * * * *".into(),
        AgentType::Pi,
        "p".into(),
        "ws".into(),
        utc(2026, 4, 16, 10, 0),
    )
    .unwrap();
    assert!(!job.is_due(&utc(2026, 4, 16, 10, 29)));
    assert!(job.is_due(&utc(2026, 4, 16, 10, 31)));
    job.advance_schedule_at(utc(2026, 4, 16, 10, 31)).unwrap();
    assert!(!job.is_due(&utc(2026, 4, 16, 10, 31)));
    assert!(!job.is_due(&utc(2026, 4, 16, 10, 59)));
    assert!(job.is_due(&utc(2026, 4, 16, 11, 0)));
}

#[test]
fn the_search_may_end_with_the_calendar() {
    let last = chrono::DateTime::<chrono::Utc>::MAX_UTC.timestamp();
    let after = Timestamp { secs: last - 366 * 4 * 86_400, nanos: 0 };
    let never = CronExpr::parse("0 0 30 2 *").unwrap();
    assert_eq!(never.next_tick(&after), Err(CronError::NoNextTick));
    let often = CronExpr::parse("* * * * *").unwrap();
    let tick = often.next_tick(&after).unwrap();
    assert_eq!(tick.secs, (after.secs / 60 + 1) * 60);
    let job = ScheduledJob::new_at(
        "j".into(),
        "n".into(),
        "* * * * *".into(),
        AgentType::Codex,
        "p".into(),
        "ws".into(),
        after,
    )
    .unwrap();
    assert_eq!(job.next_run_at, Some(tick));
    let later = Timestamp { secs: after.secs + 1, nanos: 0 };
    let refused = ScheduledJob::new_at(
        "j".into(),
        "n".into(),
        "* * * * *".into(),
        AgentType::Codex,
        "p".into(),
        "ws".into(),
        later,
    );
    assert!(matches!(refused, Err(CronError::NoNextTick)));
}

#[test]
fn fields_keep_their_bounds() {
    for bad in ["60 * * * *", "* 24 * * *", "* * 32 * *", "* * * 13 *", "* * * * 7", "0-60 * * * *"] {
        assert!(matches!(CronExpr::parse(bad), Err(CronError::ValueOutOfRange { .. })), "{bad}");
    }
    assert!(CronExpr::parse("59 23 31 12 6").is_ok());
    assert!(matches!(CronExpr::parse("*/0 * * * *"), Err(CronError::InvalidField { .. })));
}
