use slotproxy::error::Error;
use slotproxy::slots::{Slots, SlotsMap, SLOTS_COUNT};

const A1: &str = "127.0.0.1:7000";
const A2: &str = "127.0.0.1:7001";
const A3: &str = "127.0.0.1:7002";

fn three_masters() -> String {
    let mut s = String::new();
    s.push_str("07c3 127.0.0.1:7000@17000 myself,master - 0 0 1 connected 0-5461\n");
    s.push_str("67ed 127.0.0.1:7001@17001 master - 0 1426238316232 2 connected 5462-10922\n");
    s.push_str("292f 127.0.0.1:7002@17002 master - 0 1426238318243 3 connected 10923-16383\n");
    s.push_str("6ec2 127.0.0.1:7003@17003 slave 07c3 0 1426238316232 1 connected\n");
    s
}

fn installed(text: &str) -> SlotsMap<u32> {
    let mut m: SlotsMap<u32> = SlotsMap::default();
    assert!(m.try_update_all(text.as_bytes()));
    m
}

#[test]
fn three_ranges_round_trip() {
    let m = installed(&three_masters());
    assert_eq!(m.get_addr(0), A1);
    assert_eq!(m.get_addr(5461), A1);
    assert_eq!(m.get_addr(5462), A2);
    assert_eq!(m.get_addr(10922), A2);
    assert_eq!(m.get_addr(10923), A3);
    assert_eq!(m.get_addr(16383), A3);
    let t = Slots::parse(three_masters().as_bytes()).unwrap();
    assert_eq!(t.0.len(), SLOTS_COUNT);
    assert_eq!(t.crc16(), 0xe4b1);
}

#[test]
fn same_text_twice_is_no_update() {
    let mut m: SlotsMap<u32> = SlotsMap::default();
    assert!(m.try_update_all(three_masters().as_bytes()));
    assert!(!m.try_update_all(three_masters().as_bytes()));
    assert_eq!(m.get_addr(16383), A3);
}

#[test]
fn changed_text_is_installed() {
    let mut m = installed(&three_masters());
    let moved = three_masters().replace("0-5461", "0-5460").replace("5462-10922", "5461-10922");
    assert!(m.try_update_all(moved.as_bytes()));
    assert_eq!(m.get_addr(5461), A2);
    assert_eq!(m.get_addr(5460), A1);
}

#[test]
fn incomplete_text_keeps_table() {
    let mut m = installed(&three_masters());
    let short = three_masters().replace("10923-16383", "10923-16382");
    assert!(!m.try_update_all(short.as_bytes()));
    assert_eq!(m.get_addr(16383), A3);
    assert_eq!(m.get_addr(0), A1);
    assert!(matches!(Slots::parse(short.as_bytes()), Err(Error::BadSlotsMap)));
}

#[test]
fn incomplete_text_on_fresh_map() {
    let mut m: SlotsMap<u32> = SlotsMap::default();
    assert!(!m.try_update_all(b"a 1.2.3.4:1@2 master - 0 0 1 connected 0-100\n"));
    assert!(!m.try_update_all(b""));
}

#[test]
fn duplicate_slot_is_refused() {
    let text = "a 1.1.1.1:1 master - 0 0 1 connected 0-8192\nb 2.2.2.2:2 master - 0 0 1 connected 8192-16383\n";
    assert!(matches!(Slots::parse(text.as_bytes()), Err(Error::BadSlotsMap)));
    let over = "a 1.1.1.1:1 master - 0 0 1 connected 0-16383 5\n";
    assert!(matches!(Slots::parse(over.as_bytes()), Err(Error::BadSlotsMap)));
}

#[test]
fn single_slots_and_odd_tokens() {
    let text = "n 10.0.0.1:6379@16379 master - 0 0 1 connected 0 1-16382  x 5-z 16383 20000 3-2\n";
    let t = Slots::parse(text.as_bytes()).unwrap();
    assert_eq!(t.0[0], "10.0.0.1:6379");
    assert_eq!(t.0[16383], "10.0.0.1:6379");
    assert_eq!(t.crc16(), 0xcb6b);
}

#[test]
fn non_master_and_short_lines_are_ignored() {
    let text = "\nr 9.9.9.9:1 slave - 0 0 1 connected 0-16383\nshort line\nn 10.0.0.1:6379 master - 0 0 1 connected 0-16383\n";
    let t = Slots::parse(text.as_bytes()).unwrap();
    assert_eq!(t.0[42], "10.0.0.1:6379");
}

#[test]
fn later_line_wins_only_when_counts_match() {
    let text = "a 1.1.1.1:1 master - 0 0 1 connected 0-16383\nb 2.2.2.2:2 master - 0 0 1 connected 0\n";
    assert!(Slots::parse(text.as_bytes()).is_err());
}

#[test]
fn invalid_utf8_address_is_replaced() {
    let mut text: Vec<u8> = b"n 10.0.0.1:".to_vec();
    text.push(0xff);
    text.extend_from_slice(b"@1 master - 0 0 1 connected 0-16383\n");
    let t = Slots::parse(&text).unwrap();
    assert_eq!(t.0[7], "10.0.0.1:\u{FFFD}");
}

#[test]
fn checksum_is_xmodem() {
    let mut v: Vec<String> = vec![String::new(); SLOTS_COUNT];
    v[0] = "123456789".to_string();
    assert_eq!(Slots(v).crc16(), 0x31c3);
    let mut w: Vec<String> = vec![String::new(); SLOTS_COUNT];
    w[100] = "1234".to_string();
    w[9000] = "56789".to_string();
    assert_eq!(Slots(w).crc16(), 0x31c3);
}

#[test]
fn nodes_register_and_replace() {
    let mut m: SlotsMap<u32> = SlotsMap::default();
    assert_eq!(m.get_sender_by_addr(&A1.to_string()), None);
    m.add_node(A1.to_string(), 1);
    m.add_node(A2.to_string(), 2);
    assert_eq!(m.get_sender_by_addr(&A1.to_string()), Some(&1));
    m.add_node(A1.to_string(), 3);
    assert_eq!(m.get_sender_by_addr(&A1.to_string()), Some(&3));
    assert_eq!(m.get_sender_by_addr(&A2.to_string()), Some(&2));
    assert_eq!(m.get_sender_by_addr(&A3.to_string()), None);
}
