use flux::collector::adapter::InterfaceRow;
use flux::collector::traffic::get_adapter_speed;
use flux::collector::AppState;

fn counters(index: u32, rx: u64, tx: u64) -> InterfaceRow {
    InterfaceRow {
        interface_index: index,
        if_type: 6,
        oper_status: 1,
        alias: Vec::new(),
        description: Vec::new(),
        in_octets: rx,
        out_octets: tx,
    }
}

fn selected(name: &str) -> AppState {
    let mut s = AppState::new();
    s.selected_adapter = name.to_string();
    s
}

#[test]
fn no_selection_reads_nothing() {
    let mut s = AppState::new();
    let table = Some(vec![counters(5, 100, 200)]);
    assert_eq!(get_adapter_speed(&mut s, &table), Some((0, 0)));
    assert_eq!(s.last_in_bytes, 0);
}

#[test]
fn unreadable_table_gives_none() {
    let mut s = selected("5");
    assert_eq!(get_adapter_speed(&mut s, &None), None);
}

#[test]
fn missing_adapter_reads_nothing() {
    let mut s = selected("9");
    s.last_in_bytes = 50;
    s.last_out_bytes = 60;
    let table = Some(vec![counters(5, 100, 200)]);
    assert_eq!(get_adapter_speed(&mut s, &table), Some((0, 0)));
    assert_eq!((s.last_in_bytes, s.last_out_bytes), (50, 60));
}

#[test]
fn first_reading_sets_the_baseline() {
    let mut s = selected("5");
    let table = Some(vec![counters(4, 1, 1), counters(5, 1000, 300)]);
    assert_eq!(get_adapter_speed(&mut s, &table), Some((0, 0)));
    assert_eq!((s.last_in_bytes, s.last_out_bytes), (1000, 300));
    let table = Some(vec![counters(5, 1500, 320)]);
    assert_eq!(get_adapter_speed(&mut s, &table), Some((500, 20)));
    assert_eq!((s.last_in_bytes, s.last_out_bytes), (1500, 320));
    assert_eq!(get_adapter_speed(&mut s, &table), Some((0, 0)));
}

#[test]
fn counter_that_went_back_reads_zero() {
    let mut s = selected("5");
    s.last_in_bytes = 1000;
    s.last_out_bytes = 300;
    let table = Some(vec![counters(5, 10, 400)]);
    assert_eq!(get_adapter_speed(&mut s, &table), Some((0, 100)));
    assert_eq!((s.last_in_bytes, s.last_out_bytes), (10, 400));
}

#[test]
fn readings_add_up() {
    let mut s = selected("5");
    s.last_in_bytes = 100;
    s.last_out_bytes = 100;
    let (a, b) = get_adapter_speed(&mut s, &Some(vec![counters(5, 150, 130)])).unwrap();
    let (c, d) = get_adapter_speed(&mut s, &Some(vec![counters(5, 400, 131)])).unwrap();
    assert_eq!((a + c, b + d), (300, 31));
}

#[test]
fn many_readings_add_up_to_the_counter_growth() {
    let mut s = selected("5");
    s.last_in_bytes = 1000;
    s.last_out_bytes = 50;
    let readings = [(1000u64, 50u64), (1300, 60), (1300, 95), (9000, 95), (9001, 100)];
    let (mut down, mut up) = (0u64, 0u64);
    for (rx, tx) in readings {
        let (d, u) = get_adapter_speed(&mut s, &Some(vec![counters(5, rx, tx)])).unwrap();
        down += d;
        up += u;
    }
    assert_eq!((down, up), (9001 - 1000, 100 - 50));
}

#[test]
fn downloads_add_up_while_the_send_counter_resets() {
    let mut s = selected("5");
    s.last_in_bytes = 500;
    s.last_out_bytes = 900;
    let readings = [(600u64, 100u64), (600, 0), (2000, 40), (2500, 10)];
    let mut down = 0u64;
    for (rx, tx) in readings {
        let (d, _) = get_adapter_speed(&mut s, &Some(vec![counters(5, rx, tx)])).unwrap();
        down += d;
    }
    assert_eq!(down, 2500 - 500);
}
