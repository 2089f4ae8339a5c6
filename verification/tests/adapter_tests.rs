use flux::collector::adapter::{get_adapters, mark_default, read_u16_slice, InterfaceRow};
use flux::collector::AdapterInfo;

fn utf16(s: &str, size: usize) -> Vec<u16> {
    let mut v: Vec<u16> = s.encode_utf16().collect();
    v.resize(size, 0);
    v
}

fn row(index: u32, if_type: u32, status: i32, alias: &str, desc: &str) -> InterfaceRow {
    InterfaceRow {
        interface_index: index,
        if_type,
        oper_status: status,
        alias: utf16(alias, 257),
        description: utf16(desc, 257),
        in_octets: 0,
        out_octets: 0,
    }
}

fn adapter(name: &str, ip: &str, is_default: bool) -> AdapterInfo {
    AdapterInfo {
        name: name.to_string(),
        alias: format!("adapter {}", name),
        ip_address: ip.to_string(),
        is_default,
    }
}

#[test]
fn read_u16_slice_stops_at_nul() {
    assert_eq!(read_u16_slice(&utf16("Ethernet", 257)), "Ethernet");
    assert_eq!(read_u16_slice(&utf16("", 257)), "");
    assert_eq!(read_u16_slice(&[]), "");
    let full: Vec<u16> = "Wi-Fi".encode_utf16().collect();
    assert_eq!(read_u16_slice(&full), "Wi-Fi");
    assert_eq!(read_u16_slice(&[0x41, 0xDC00, 0, 0x42]), "A\u{FFFD}");
}

#[test]
fn get_adapters_keeps_up_physical_interfaces() {
    let rows = vec![
        row(12, 6, 1, "Ethernet", "Realtek PCIe GbE Family Controller"),
        row(3, 71, 1, "Wi-Fi", ""),
        row(4, 24, 1, "Loopback Pseudo-Interface 1", "Software Loopback Interface 1"),
        row(5, 6, 2, "Ethernet 2", "Intel Ethernet"),
        row(6, 6, 1, "", "Nameless controller"),
        row(7, 6, 1, "vEthernet", "Hyper-V Virtual Ethernet Adapter"),
        row(8, 71, 1, "Local Area Connection", "WAN MINIPORT (IP)"),
        row(9, 6, 1, "Kernel", "Debug transport"),
        row(10, 6, 1, "Clash", "Meta Tunnel"),
    ];
    let ip = "192.168.1.20".to_string();
    let adapters = get_adapters(&rows, &ip);
    assert_eq!(adapters.len(), 2);
    assert_eq!(adapters[0].name, "12");
    assert_eq!(adapters[0].alias, "Realtek PCIe GbE Family Controller");
    assert_eq!(adapters[0].ip_address, "192.168.1.20");
    assert!(adapters[0].is_default);
    assert_eq!(adapters[1].name, "3");
    assert_eq!(adapters[1].alias, "Wi-Fi");
    assert!(!adapters[1].is_default);
}

#[test]
fn get_adapters_without_address_marks_the_first() {
    let rows = vec![row(21, 6, 1, "Ethernet", "NIC"), row(22, 71, 1, "Wi-Fi", "WLAN card")];
    let adapters = get_adapters(&rows, &String::new());
    assert_eq!(adapters.len(), 2);
    assert!(adapters[0].is_default);
    assert!(!adapters[1].is_default);
    assert_eq!(adapters[1].alias, "WLAN card");
}

#[test]
fn get_adapters_of_empty_table_is_empty() {
    assert!(get_adapters(&Vec::new(), &"10.0.0.1".to_string()).is_empty());
}

#[test]
fn mark_default_prefers_an_adapter_with_address() {
    let mut adapters = vec![adapter("1", "", false), adapter("2", "10.0.0.2", false), adapter("3", "10.0.0.3", false)];
    mark_default(&mut adapters);
    let marks: Vec<bool> = adapters.iter().map(|a| a.is_default).collect();
    assert_eq!(marks, vec![false, true, false]);

    let mut none = vec![adapter("1", "", false), adapter("2", "", false)];
    mark_default(&mut none);
    let marks: Vec<bool> = none.iter().map(|a| a.is_default).collect();
    assert_eq!(marks, vec![true, false]);

    let mut empty: Vec<AdapterInfo> = Vec::new();
    mark_default(&mut empty);
    assert!(empty.is_empty());
}

#[test]
fn mark_default_keeps_earlier_marks() {
    let mut adapters = vec![adapter("1", "", true), adapter("2", "10.0.0.2", false)];
    mark_default(&mut adapters);
    assert!(adapters[0].is_default);
    assert!(adapters[1].is_default);
    assert_eq!(adapters[1].ip_address, "10.0.0.2");
}

#[test]
fn text_after_the_first_nul_is_ignored() {
    let mut buf: Vec<u16> = "Wi-Fi".encode_utf16().collect();
    buf.push(0);
    buf.extend("garbage".encode_utf16());
    assert_eq!(read_u16_slice(&buf), "Wi-Fi");
    assert!(!read_u16_slice(&buf).contains('\0'));
}

#[test]
fn listing_ignores_letter_case() {
    let lower = vec![row(1, 6, 1, "ethernet", "realtek nic"), row(2, 6, 1, "hyper-v", "virtual switch")];
    let upper = vec![row(1, 6, 1, "ETHERNET", "Realtek NIC"), row(2, 6, 1, "Hyper-V", "VIRTUAL Switch")];
    let ip = "10.0.0.1".to_string();
    let a = get_adapters(&lower, &ip);
    let b = get_adapters(&upper, &ip);
    assert_eq!(a.len(), 1);
    assert_eq!(b.len(), 1);
    assert_eq!(a[0].name, b[0].name);
    assert_eq!(a[0].is_default, b[0].is_default);
}
