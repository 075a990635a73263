use chatroom::address::Address;
use chatroom::discovery::{lease_lost, Instance, Model, PingResult};

fn addr(last: u8, port: u16) -> Address {
    Address::new(127, 0, 0, last, port)
}

const SEC: i64 = 1_000;

#[test]
fn register_ping_expire() {
    let mut m = Model::new();
    let a = addr(1, 3000);
    let t0: i64 = 1_000_000;
    let id = m.register_instance(a, t0);
    for s in [2, 4, 6, 8] {
        assert_eq!(m.ping_instance(a, id, t0 + s * SEC), PingResult::Active);
    }
    assert_eq!(m.ping_instance(a, id, t0 + 25 * SEC), PingResult::NoLongerActive);
}

#[test]
fn lease_ends_after_ten_seconds_without_ping() {
    let mut m = Model::new();
    let a = addr(1, 3000);
    m.register_instance_with_id(a, 77, 0);
    assert_eq!(m.ping_instance(a, 77, 9_999), PingResult::Active);
    assert_eq!(m.ping_instance(a, 77, 9_999 + 10_000), PingResult::NoLongerActive);
    // A wrong id or an unknown address is never active.
    m.register_instance_with_id(a, 78, 30_000);
    assert_eq!(m.ping_instance(a, 77, 30_001), PingResult::NoLongerActive);
    assert_eq!(m.ping_instance(addr(2, 3000), 78, 30_001), PingResult::NoLongerActive);
    assert_eq!(m.ping_instance(a, 78, 30_001), PingResult::Active);
}

#[test]
fn sticky_binding() {
    let mut m = Model::new();
    let a = addr(1, 3000);
    let b = addr(2, 3000);
    m.register_instance_with_id(a, 1, 0);
    m.register_instance_with_id(b, 2, 0);
    let first = m.get_chatroom("rust", SEC).unwrap();
    for k in 0..100 {
        assert_eq!(m.get_chatroom("rust", SEC + k), Some(first));
        assert_eq!(m.choose_chatroom("rust", SEC + k, k as usize), Some(first));
    }
    // The bound instance stops pinging; the other one keeps its lease.
    let (other_addr, other_id) = if first.address == a { (b, 2) } else { (a, 1) };
    let mut t = SEC;
    while t < 12 * SEC {
        t += 2 * SEC;
        assert_eq!(m.ping_instance(other_addr, other_id, t), PingResult::Active);
    }
    let other = Instance { instance_id: other_id, address: other_addr };
    assert_eq!(m.get_chatroom("rust", t), Some(other));
    assert_eq!(m.choose_chatroom("rust", t, 5), Some(other));
}

#[test]
fn lookup_picks_by_draw_and_binds() {
    let mut m = Model::new();
    let a = addr(1, 3000);
    let b = addr(2, 3000);
    m.register_instance_with_id(a, 1, 0);
    m.register_instance_with_id(b, 2, 0);
    assert_eq!(m.get_instances(0).len(), 2);
    assert_eq!(m.choose_chatroom("go", 0, 3), Some(Instance { instance_id: 2, address: b }));
    assert_eq!(m.choose_chatroom("go", 0, 0), Some(Instance { instance_id: 2, address: b }));
    assert_eq!(m.choose_chatroom("zig", 0, 0), Some(Instance { instance_id: 1, address: a }));
}

#[test]
fn no_active_instance_gives_none() {
    let mut m = Model::new();
    assert_eq!(m.get_chatroom("rust", 0), None);
    m.register_instance_with_id(addr(1, 3000), 1, 0);
    assert!(m.get_chatroom("rust", 5 * SEC).is_some());
    assert_eq!(m.get_chatroom("rust", 10 * SEC), None);
    assert_eq!(m.get_chatroom("go", 60 * SEC), None);
    assert!(m.get_instances(60 * SEC).is_empty());
}

#[test]
fn register_replaces_row_of_same_address() {
    let mut m = Model::new();
    let a = addr(1, 3000);
    m.register_instance_with_id(a, 1, 0);
    m.register_instance_with_id(a, 2, 0);
    let active = m.get_instances(0);
    assert_eq!(active, vec![Instance { instance_id: 2, address: a }]);
}

#[test]
fn active_list_has_each_instance_once() {
    let mut m = Model::new();
    let a = addr(1, 3000);
    m.register_instance_with_id(a, 1, 0);
    m.register_instance_with_id(a, 1, 100);
    m.register_instance_with_id(addr(2, 3000), 2, 100);
    assert_eq!(m.get_instances(200).len(), 2);
}

#[test]
fn only_no_longer_active_ends_the_instance() {
    assert!(lease_lost(PingResult::NoLongerActive));
    assert!(!lease_lost(PingResult::Active));
}
