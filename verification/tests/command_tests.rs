use flux::collector::{AdapterInfo, AppState};
use flux::commands::network::select_adapter;
use flux::{migrate_old_format, OldFormat};

fn with_adapters() -> AppState {
    let mut st = AppState::new();
    st.adapters = vec![
        AdapterInfo { name: "3".to_string(), alias: "Wi-Fi".to_string(), ip_address: String::new(), is_default: false },
        AdapterInfo { name: "7".to_string(), alias: "Ethernet".to_string(), ip_address: String::new(), is_default: true },
    ];
    st.selected_adapter = "7".to_string();
    st
}

#[test]
fn select_adapter_switches_to_a_known_adapter() {
    let mut st = with_adapters();
    assert_eq!(select_adapter("3".to_string(), &mut st), Ok(()));
    assert_eq!(st.selected_adapter, "3");
}

#[test]
fn select_adapter_refuses_an_unknown_adapter() {
    let mut st = with_adapters();
    assert_eq!(select_adapter("12".to_string(), &mut st), Err("Adapter '12' not found".to_string()));
    assert_eq!(st.selected_adapter, "7");
}

#[test]
fn migration_turns_the_old_day_into_a_log() {
    let content = "{\"date\":\"2024-03-15\",\"month_key\":\"2024-03\",\"today_download\":10,\"today_upload\":5}".to_string();
    let old = OldFormat { date: "2024-03-15".to_string(), today_download: 10, today_upload: 5 };
    let log = migrate_old_format(&content, Some(old)).unwrap();
    assert_eq!(log.entries().len(), 1);
    let e = &log.entries()[0];
    assert_eq!(e.day, "2024-03-15");
    assert_eq!(e.record.date, "2024-03-15");
    assert_eq!((e.record.download, e.record.upload, e.record.total), (10, 5, 15));
}

#[test]
fn migration_leaves_current_data_alone() {
    let content = "{\"daily_records\":{},\"date\":\"x\",\"today_download\":1,\"today_upload\":2}".to_string();
    let old = OldFormat { date: "x".to_string(), today_download: 1, today_upload: 2 };
    assert!(migrate_old_format(&content, Some(old)).is_none());
    assert!(migrate_old_format(&"{}".to_string(), None).is_none());
}

#[test]
fn full_state_and_adapters_are_copies() {
    let st = with_adapters();
    let copy = flux::commands::network::get_full_state(&st).unwrap();
    assert_eq!(copy.selected_adapter, "7");
    assert_eq!(copy.adapters.len(), 2);
    assert_eq!(copy.adapters[0].alias, "Wi-Fi");
    let adapters = flux::commands::network::get_adapters(&st).unwrap();
    assert_eq!(adapters.len(), 2);
    assert_eq!(adapters[1].name, "7");
    assert!(adapters[1].is_default);
}
