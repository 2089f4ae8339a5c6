use flux::collector::daily::DailyLog;
use flux::collector::DailyRecord;

fn rec(date: &str, dl: u64, ul: u64) -> DailyRecord {
    DailyRecord { date: date.to_string(), download: dl, upload: ul, total: dl + ul }
}

fn keys(log: &DailyLog) -> Vec<String> {
    log.entries().iter().map(|e| e.day.clone()).collect()
}

#[test]
fn insert_keeps_keys_sorted_and_unique() {
    let mut log = DailyLog::new();
    log.insert("2024-03-02".to_string(), rec("2024-03-02", 1, 1));
    log.insert("2024-02-28".to_string(), rec("2024-02-28", 2, 2));
    log.insert("2024-03-10".to_string(), rec("2024-03-10", 3, 3));
    log.insert("2024-03-02".to_string(), rec("x", 9, 9));
    assert_eq!(keys(&log), vec!["2024-02-28", "2024-03-02", "2024-03-10"]);
    assert_eq!(log.entries()[1].record.download, 9);
    assert_eq!(log.entries()[1].record.date, "x");
}

#[test]
fn add_traffic_creates_then_grows_the_day() {
    let mut log = DailyLog::new();
    let day = "2024-03-15".to_string();
    assert!(log.add_traffic(&day, 100, 20));
    assert_eq!(log.entries()[0].record.date, "2024-03-15");
    assert_eq!(log.entries()[0].record.total, 120);
    assert!(log.add_traffic(&day, 5, 5));
    assert_eq!(log.entries().len(), 1);
    let r = &log.entries()[0].record;
    assert_eq!((r.download, r.upload, r.total), (105, 25, 130));
}

#[test]
fn add_traffic_refuses_overflow() {
    let mut log = DailyLog::new();
    let day = "2024-03-15".to_string();
    assert!(log.add_traffic(&day, u64::MAX - 10, 10));
    assert!(!log.add_traffic(&day, 0, 1));
    assert!(!log.add_traffic(&day, 11, 0));
    assert_eq!(log.entries()[0].record.download, u64::MAX - 10);
    assert!(!log.add_traffic(&"2024-03-16".to_string(), u64::MAX, 1));
    assert_eq!(log.entries().len(), 1);
}

#[test]
fn month_totals_sum_the_month() {
    let mut log = DailyLog::new();
    log.insert("2024-02-29".to_string(), rec("2024-02-29", 1000, 1));
    log.insert("2024-03-01".to_string(), rec("2024-03-01", 10, 1));
    log.insert("2024-03-31".to_string(), rec("2024-03-31", 20, 2));
    log.insert("2024-04-01".to_string(), rec("2024-04-01", 300, 3));
    assert_eq!(log.month_totals(&"2024-03".to_string()), Some((30, 3)));
    assert_eq!(log.month_totals(&"2023-12".to_string()), Some((0, 0)));
    log.insert("2024-03-02".to_string(), rec("2024-03-02", u64::MAX, 0));
    assert_eq!(log.month_totals(&"2024-03".to_string()), None);
    assert_eq!(log.month_totals(&"2024-04".to_string()), Some((300, 3)));
}

#[test]
fn recent_days_are_newest_first() {
    let mut log = DailyLog::new();
    for d in 1..=9u64 {
        let day = format!("2024-03-{:02}", d);
        log.insert(day.clone(), rec(&day, d, 0));
    }
    let recent = log.recent_days(7);
    let dates: Vec<&str> = recent.iter().map(|r| r.date.as_str()).collect();
    assert_eq!(dates, vec!["2024-03-09", "2024-03-08", "2024-03-07", "2024-03-06", "2024-03-05", "2024-03-04", "2024-03-03"]);
    assert_eq!(log.recent_days(20).len(), 9);
    assert!(DailyLog::new().recent_days(7).is_empty());
}

#[test]
fn month_sums_group_days_by_month() {
    let mut log = DailyLog::new();
    log.insert("2024-01-05".to_string(), rec("2024-01-05", 1, 10));
    log.insert("2024-03-01".to_string(), rec("2024-03-01", 2, 20));
    log.insert("2024-03-07".to_string(), rec("2024-03-07", 3, 30));
    log.insert("2023-12-31".to_string(), rec("2023-12-31", 4, 40));
    let sums = log.sums_by_month().unwrap();
    let flat: Vec<(String, u64, u64)> = sums;
    assert_eq!(
        flat,
        vec![
            ("2023-12".to_string(), 4, 40),
            ("2024-01".to_string(), 1, 10),
            ("2024-03".to_string(), 5, 50),
        ]
    );
}

#[test]
fn month_sums_need_seven_byte_keys() {
    let mut log = DailyLog::new();
    log.insert("2024-3".to_string(), rec("2024-3", 1, 1));
    assert!(log.sums_by_month().is_none());
    assert!(log.monthly_summary(3).is_none());
}

#[test]
fn month_sums_refuse_overflow() {
    let mut log = DailyLog::new();
    log.insert("2024-03-01".to_string(), rec("2024-03-01", u64::MAX, 0));
    log.insert("2024-03-02".to_string(), rec("2024-03-02", 1, 0));
    assert!(log.sums_by_month().is_none());
}

#[test]
fn monthly_summary_labels_the_last_months() {
    let mut log = DailyLog::new();
    for (day, dl, ul) in [
        ("2023-11-30", 7, 7),
        ("2023-12-01", 1, 2),
        ("2024-01-15", 3, 4),
        ("2024-10-01", 5, 6),
        ("2024-10-02", 5, 6),
    ] {
        log.insert(day.to_string(), rec(day, dl, ul));
    }
    let months = log.monthly_summary(3).unwrap();
    let labels: Vec<&str> = months.iter().map(|m| m.month.as_str()).collect();
    assert_eq!(labels, vec!["2024年10月", "2024年1月", "2023年12月"]);
    assert_eq!((months[0].download, months[0].upload, months[0].total), (10, 12, 22));
    assert_eq!((months[2].download, months[2].upload, months[2].total), (1, 2, 3));
}

#[test]
fn monthly_summary_refuses_a_total_that_overflows() {
    let mut log = DailyLog::new();
    log.insert("2024-03-01".to_string(), rec("2024-03-01", u64::MAX, 1));
    assert!(log.sums_by_month().is_some());
    assert!(log.monthly_summary(3).is_none());
    assert_eq!(log.monthly_summary(0).map(|v| v.len()), Some(0));
}

#[test]
fn monthly_summary_needs_label_boundaries() {
    let mut log = DailyLog::new();
    log.insert("202\u{e9}-3x".to_string(), rec("d", 1, 1));
    assert_eq!(log.sums_by_month().map(|v| v.len()), Some(1));
    assert!(log.monthly_summary(3).is_none());
}

#[test]
fn a_reading_adds_to_its_month_only() {
    let mut log = DailyLog::new();
    log.insert("2024-02-10".to_string(), rec("2024-02-10", 5, 5));
    log.insert("2024-03-01".to_string(), rec("2024-03-01", 7, 1));
    let march = "2024-03".to_string();
    let feb = "2024-02".to_string();
    let (md, mu) = log.month_totals(&march).unwrap();
    let (fd, fu) = log.month_totals(&feb).unwrap();
    assert!(log.add_traffic(&"2024-03-02".to_string(), 40, 4));
    assert_eq!(log.month_totals(&march), Some((md + 40, mu + 4)));
    assert_eq!(log.month_totals(&feb), Some((fd, fu)));
    for e in log.entries() {
        assert_eq!(e.record.total, e.record.download + e.record.upload);
    }
}

#[test]
fn the_current_month_equals_its_month_sum() {
    let mut log = DailyLog::new();
    for (day, dl, ul) in [("2024-02-28", 1, 2), ("2024-03-01", 3, 4), ("2024-03-20", 5, 6)] {
        log.insert(day.to_string(), rec(day, dl, ul));
    }
    let sums = log.sums_by_month().unwrap();
    let march = sums.iter().find(|t| t.0 == "2024-03").unwrap();
    assert_eq!(log.month_totals(&"2024-03".to_string()), Some((march.1, march.2)));
}
