use flux::collector::adapter::{get_adapters, InterfaceRow};
use flux::collector::daily::DailyLog;
use flux::collector::{AdapterInfo, AppState, Collector, DailyRecord, TrafficStats};

fn counters(index: u32, rx: u64, tx: u64) -> Option<Vec<InterfaceRow>> {
    Some(vec![InterfaceRow {
        interface_index: index,
        if_type: 6,
        oper_status: 1,
        alias: Vec::new(),
        description: Vec::new(),
        in_octets: rx,
        out_octets: tx,
    }])
}

fn monitoring(name: &str) -> AppState {
    let mut s = AppState::new();
    s.selected_adapter = name.to_string();
    s
}

fn s(x: &str) -> String {
    x.to_string()
}

#[test]
fn new_state_is_empty() {
    let t = TrafficStats::new();
    assert_eq!((t.download, t.upload, t.total), (0, 0, 0));
    let st = AppState::new();
    assert!(st.adapters.is_empty());
    assert!(st.selected_adapter.is_empty());
    assert!(st.daily_records.is_empty());
    assert!(st.monthly_records.is_empty());
    assert!(!st.connected);
    assert_eq!((st.last_in_bytes, st.last_out_bytes), (0, 0));
}

#[test]
fn install_adapters_selects_the_default() {
    let mut st = AppState::new();
    st.install_adapters(vec![
        AdapterInfo { name: s("3"), alias: s("Wi-Fi"), ip_address: s(""), is_default: false },
        AdapterInfo { name: s("7"), alias: s("Ethernet"), ip_address: s("10.0.0.7"), is_default: true },
    ]);
    assert_eq!(st.selected_adapter, "7");
    assert_eq!(st.ip_address, "10.0.0.7");
    assert!(st.connected);
    assert_eq!(st.adapters.len(), 2);

    let mut st = AppState::new();
    st.install_adapters(vec![AdapterInfo { name: s("3"), alias: s("Wi-Fi"), ip_address: s(""), is_default: false }]);
    assert_eq!(st.selected_adapter, "3");
    assert!(!st.connected);

    let mut st = AppState::new();
    st.install_adapters(Vec::new());
    assert!(st.selected_adapter.is_empty());
}

#[test]
fn ticks_accumulate_today_day_and_month() {
    let mut st = monitoring("5");
    let mut c = Collector::new(DailyLog::new());
    let today = s("2024-03-15");
    let month = s("2024-03");
    assert_eq!(c.step(&mut st, &today, &month, &counters(5, 1000, 500)), Some(false));
    assert_eq!(st.today.total, 0);
    assert_eq!(c.step(&mut st, &today, &month, &counters(5, 1600, 700)), Some(false));
    assert_eq!((st.today.download, st.today.upload, st.today.total), (600, 200, 800));
    assert_eq!((st.month.download, st.month.upload, st.month.total), (600, 200, 800));
    assert_eq!(st.daily_records.len(), 1);
    assert_eq!(st.daily_records[0].date, "2024-03-15");
    assert_eq!(st.daily_records[0].total, 800);
    assert_eq!(st.monthly_records.len(), 1);
    assert_eq!(st.monthly_records[0].month, "2024年3月");
    assert_eq!(st.monthly_records[0].total, 800);
    assert_eq!(c.tick, 2);
}

#[test]
fn month_counts_the_restored_days() {
    let mut log = DailyLog::new();
    log.insert(s("2024-03-01"), DailyRecord { date: s("2024-03-01"), download: 50, upload: 5, total: 55 });
    log.insert(s("2024-02-01"), DailyRecord { date: s("2024-02-01"), download: 70, upload: 7, total: 77 });
    let mut st = monitoring("5");
    st.last_in_bytes = 10;
    st.last_out_bytes = 10;
    let mut c = Collector::new(log);
    assert_eq!(c.step(&mut st, &s("2024-03-02"), &s("2024-03"), &counters(5, 20, 11)), Some(false));
    assert_eq!((st.month.download, st.month.upload), (60, 6));
    let dates: Vec<&str> = st.daily_records.iter().map(|r| r.date.as_str()).collect();
    assert_eq!(dates, vec!["2024-03-02", "2024-03-01", "2024-02-01"]);
    let months: Vec<&str> = st.monthly_records.iter().map(|m| m.month.as_str()).collect();
    assert_eq!(months, vec!["2024年3月", "2024年2月"]);
}

#[test]
fn saves_every_thirty_ticks() {
    let mut st = monitoring("");
    let mut c = Collector::new(DailyLog::new());
    let today = s("2024-03-15");
    let month = s("2024-03");
    for tick in 1..=60u64 {
        let save = c.step(&mut st, &today, &month, &None).unwrap();
        assert_eq!(save, tick % 30 == 0);
    }
    assert_eq!(c.last_save_day, "2024-03-15");
}

#[test]
fn a_new_day_after_a_save_starts_today_from_zero() {
    let mut st = monitoring("5");
    st.last_in_bytes = 1;
    st.last_out_bytes = 1;
    let mut c = Collector::new(DailyLog::new());
    c.tick = 29;
    let month = s("2024-03");
    assert_eq!(c.step(&mut st, &s("2024-03-15"), &month, &counters(5, 11, 1)), Some(true));
    assert_eq!(st.today.download, 10);
    assert_eq!(c.step(&mut st, &s("2024-03-16"), &month, &counters(5, 21, 1)), Some(false));
    assert_eq!((st.today.download, st.today.upload, st.today.total), (0, 0, 0));
    assert_eq!(c.last_save_day, "2024-03-16");
    assert_eq!(st.daily_records[0].date, "2024-03-16");
    assert_eq!(st.daily_records[0].download, 10);
    assert_eq!(st.month.download, 20);
}

#[test]
fn a_new_day_before_any_save_keeps_today() {
    let mut st = monitoring("5");
    st.last_in_bytes = 1;
    st.last_out_bytes = 1;
    let mut c = Collector::new(DailyLog::new());
    let month = s("2024-03");
    c.step(&mut st, &s("2024-03-15"), &month, &counters(5, 11, 1)).unwrap();
    c.step(&mut st, &s("2024-03-16"), &month, &counters(5, 21, 1)).unwrap();
    assert_eq!(st.today.download, 20);
    assert!(c.last_save_day.is_empty());
}

#[test]
fn step_refuses_overflow() {
    let mut st = monitoring("5");
    st.today.download = u64::MAX;
    st.last_in_bytes = 1;
    st.last_out_bytes = 1;
    let mut c = Collector::new(DailyLog::new());
    assert_eq!(c.step(&mut st, &s("2024-03-15"), &s("2024-03"), &counters(5, 2, 1)), None);
}

#[test]
fn step_refuses_a_day_key_without_a_month() {
    let mut st = monitoring("");
    let mut c = Collector::new(DailyLog::new());
    assert_eq!(c.step(&mut st, &s("15/3"), &s("2024-03"), &None), None);
}

#[test]
fn startup_selects_the_adapter_marked_default() {
    let row = |index: u32, alias: &str| {
        let mut v: Vec<u16> = alias.encode_utf16().collect();
        v.push(0);
        InterfaceRow { interface_index: index, if_type: 6, oper_status: 1, alias: v, description: vec![0], in_octets: 0, out_octets: 0 }
    };
    let adapters = get_adapters(&vec![row(4, "Ethernet"), row(9, "Ethernet 2")], &s("10.1.1.1"));
    let mut st = AppState::new();
    st.install_adapters(adapters);
    assert_eq!(st.selected_adapter, "4");
    assert_eq!(st.ip_address, "10.1.1.1");
    assert!(st.connected);
}
