use chatroom::address::Address;
use chatroom::discovery::Instance;
use chatroom::gateway::{chatroom_entries, group_by_address, split_terms};
use chatroom::registry::TermCount;

#[test]
fn empty_search_gives_no_rooms() {
    let terms = split_terms("");
    assert!(terms.is_empty());
    assert!(group_by_address(&terms, &Vec::new()).is_empty());
    assert!(split_terms("   ").is_empty());
}

#[test]
fn terms_are_split_on_spaces() {
    assert_eq!(split_terms("go zig  rust "), vec!["go", "zig", "rust"]);
    assert_eq!(split_terms("one"), vec!["one"]);
}

#[test]
fn search_end_to_end() {
    let a = Address::new(10, 0, 0, 1, 3000);
    let b = Address::new(10, 0, 0, 2, 3001);
    let terms = split_terms("go zig rust");
    let answers = vec![
        Some(Instance { instance_id: 1, address: a }),
        Some(Instance { instance_id: 1, address: a }),
        Some(Instance { instance_id: 2, address: b }),
    ];
    let groups = group_by_address(&terms, &answers);
    assert_eq!(groups.len(), 2);
    assert_eq!(groups[0].0, a);
    assert_eq!(groups[0].1, vec!["go", "zig"]);
    assert_eq!(groups[1].0, b);
    assert_eq!(groups[1].1, vec!["rust"]);
    let mut rooms = Vec::new();
    for (address, group) in groups.iter() {
        let counts: Vec<TermCount> = group
            .iter()
            .enumerate()
            .map(|(k, t)| TermCount {
                term: t.clone(),
                chatroom_id: chatroom::get_channel_id(t),
                user_count: k as u32 + 1,
            })
            .collect();
        rooms.extend(chatroom_entries(address, &counts));
    }
    assert_eq!(rooms.len(), 3);
    assert_eq!(rooms.iter().filter(|r| r.url == "ws://10.0.0.1:3000/ws").count(), 2);
    assert_eq!(rooms.iter().filter(|r| r.url == "ws://10.0.0.2:3001/ws").count(), 1);
    assert!(rooms.iter().all(|r| r.online));
    assert_eq!(rooms[1].term, "zig");
    assert_eq!(rooms[1].num_users, 2);
    assert_eq!(rooms[2].chatroom_id, -907731118);
}

#[test]
fn unanswered_terms_are_left_out() {
    let a = Address::new(1, 2, 3, 4, 80);
    let terms = split_terms("x y");
    let answers = vec![None, Some(Instance { instance_id: 9, address: a })];
    let groups = group_by_address(&terms, &answers);
    assert_eq!(groups, vec![(a, vec!["y".to_string()])]);
}

#[test]
fn address_text() {
    assert_eq!(Address::new(127, 0, 0, 1, 3000).to_text(), "127.0.0.1:3000");
    assert_eq!(Address::new(255, 10, 0, 9, 65535).to_text(), "255.10.0.9:65535");
}

#[test]
fn address_parse_reads_its_text() {
    let a = Address::new(127, 0, 0, 1, 3000);
    assert_eq!(Address::parse("127.0.0.1:3000"), Some(a));
    assert_eq!(Address::parse(&a.to_text()), Some(a));
    assert_eq!(Address::parse("0.0.0.0:0"), Some(Address::new(0, 0, 0, 0, 0)));
    assert_eq!(Address::parse("255.255.255.255:65535"), Some(Address::new(255, 255, 255, 255, 65535)));
}

#[test]
fn address_parse_rejects_other_texts() {
    for bad in [
        "", "127.0.0.1", "127.0.0.1:", "256.0.0.1:80", "1.2.3:80", "1.2.3.4:65536", "01.2.3.4:80",
        "1.2.3.4:80 ", " 1.2.3.4:80", "1.2.3.4.5:80", "-1.2.3.4:80", "a.b.c.d:80",
    ] {
        assert_eq!(Address::parse(bad), None, "{}", bad);
    }
}
