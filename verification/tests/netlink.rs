use minazuki::watcher::{
    native_order, order_from_ne_one, parse_events, parse_proc_event, subscribe_msg, u32_at, ByteOrder, Event,
};

fn u32_bytes(v: u32, o: ByteOrder) -> [u8; 4] {
    match o {
        ByteOrder::Little => v.to_le_bytes(),
        ByteOrder::Big => v.to_be_bytes(),
    }
}

fn u16_bytes(v: u16, o: ByteOrder) -> [u8; 2] {
    match o {
        ByteOrder::Little => v.to_le_bytes(),
        ByteOrder::Big => v.to_be_bytes(),
    }
}

/// A netlink message carrying a proc connector event.
fn message(o: ByteOrder, ntype: u16, what: u32, pid: u32, tgid: u32) -> Vec<u8> {
    let mut payload = vec![0u8; 20];
    payload.extend_from_slice(&u32_bytes(what, o));
    payload.extend_from_slice(&[0u8; 12]);
    payload.extend_from_slice(&u32_bytes(pid, o));
    payload.extend_from_slice(&u32_bytes(tgid, o));
    let len = 16 + payload.len() as u32;
    let mut m = Vec::new();
    m.extend_from_slice(&u32_bytes(len, o));
    m.extend_from_slice(&u16_bytes(ntype, o));
    m.extend_from_slice(&[0u8; 10]);
    m.extend_from_slice(&payload);
    while m.len() % 4 != 0 {
        m.push(0);
    }
    m
}

#[test]
fn native_order_matches_the_machine() {
    let o = native_order();
    let expect = if 1u16.to_ne_bytes()[0] == 1 { ByteOrder::Little } else { ByteOrder::Big };
    assert_eq!(o, expect);
}

#[test]
fn subscribe_message_layout() {
    let o = native_order();
    let msg = subscribe_msg(4321, o);
    assert_eq!(msg.len(), 40);
    assert_eq!(u32_at(&msg, 0, o), Some(40));
    assert_eq!(u32_at(&msg, 12, o), Some(4321));
    assert_eq!(u32_at(&msg, 36, o), Some(1));
    let mut expect = Vec::new();
    expect.extend_from_slice(&40u32.to_ne_bytes());
    expect.extend_from_slice(&3u16.to_ne_bytes());
    expect.extend_from_slice(&0u16.to_ne_bytes());
    expect.extend_from_slice(&0u32.to_ne_bytes());
    expect.extend_from_slice(&4321u32.to_ne_bytes());
    expect.extend_from_slice(&1u32.to_ne_bytes());
    expect.extend_from_slice(&1u32.to_ne_bytes());
    expect.extend_from_slice(&0u32.to_ne_bytes());
    expect.extend_from_slice(&0u32.to_ne_bytes());
    expect.extend_from_slice(&4u16.to_ne_bytes());
    expect.extend_from_slice(&0u16.to_ne_bytes());
    expect.extend_from_slice(&1u32.to_ne_bytes());
    assert_eq!(msg, expect);
    let big = subscribe_msg(1, ByteOrder::Big);
    assert_eq!(&big[0..6], &[0, 0, 0, 40, 0, 3]);
}

#[test]
fn u32_at_reads_within_bounds() {
    let b = [1u8, 0, 0, 0, 2];
    assert_eq!(u32_at(&b, 0, ByteOrder::Little), Some(1));
    assert_eq!(u32_at(&b, 1, ByteOrder::Big), Some(2));
    assert_eq!(u32_at(&b, 2, ByteOrder::Little), None);
}

#[test]
fn events_are_read_in_order() {
    for o in [ByteOrder::Little, ByteOrder::Big] {
        let mut buf = message(o, 3, 2, 10, 11);
        buf.extend(message(o, 3, 0x8000_0000, 12, 12));
        buf.extend(message(o, 3, 0x8000_0000, 13, 14));
        buf.extend(message(o, 1, 2, 15, 15));
        buf.extend(message(o, 3, 1, 16, 16));
        assert_eq!(
            parse_events(&buf, o),
            vec![Event::Exec { pid: 11 }, Event::Exit { pid: 12 }]
        );
    }
}

#[test]
fn bad_length_stops_reading() {
    let o = ByteOrder::Little;
    let mut buf = message(o, 3, 2, 1, 1);
    let mut bad = message(o, 3, 2, 2, 2);
    bad[0..4].copy_from_slice(&8u32.to_le_bytes());
    buf.extend(bad);
    buf.extend(message(o, 3, 2, 3, 3));
    assert_eq!(parse_events(&buf, o), vec![Event::Exec { pid: 1 }]);
    let mut long = message(o, 3, 2, 4, 4);
    long[0..4].copy_from_slice(&1000u32.to_le_bytes());
    assert!(parse_events(&long, o).is_empty());
    assert!(parse_events(&[0u8; 15], o).is_empty());
}

#[test]
fn short_payload_is_no_event() {
    assert_eq!(parse_proc_event(&[0u8; 43], ByteOrder::Little), None);
    let m = message(ByteOrder::Little, 3, 2, 5, 6);
    assert_eq!(parse_proc_event(&m[16..60], ByteOrder::Little), Some(Event::Exec { pid: 6 }));
}

#[test]
fn order_from_the_bytes_of_one() {
    assert_eq!(order_from_ne_one([1, 0]), ByteOrder::Little);
    assert_eq!(order_from_ne_one([0, 1]), ByteOrder::Big);
    assert_eq!(order_from_ne_one(1u16.to_ne_bytes()), native_order());
}

#[test]
fn each_event_takes_sixty_bytes_at_least() {
    let o = ByteOrder::Little;
    let mut buf = Vec::new();
    for pid in 1..=5u32 {
        buf.extend(message(o, 3, 2, pid, pid));
    }
    let events = parse_events(&buf, o);
    assert_eq!(events.len(), 5);
    assert!(events.len() * 60 <= buf.len());
    assert!(parse_events(&buf[..59], o).is_empty());
}

#[test]
fn truncated_tail_adds_nothing() {
    let o = ByteOrder::Big;
    let mut whole = message(o, 3, 2, 7, 8);
    whole.extend(message(o, 3, 0x8000_0000, 9, 9));
    let expect = parse_events(&whole, o);
    assert_eq!(expect, vec![Event::Exec { pid: 8 }, Event::Exit { pid: 9 }]);
    let third = message(o, 3, 2, 10, 10);
    for cut in [1usize, 15, 16, 30, 59] {
        let mut buf = whole.clone();
        buf.extend_from_slice(&third[..cut]);
        assert_eq!(parse_events(&buf, o), expect);
    }
}
