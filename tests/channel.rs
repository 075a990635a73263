use chatroom::get_channel_id;

#[test]
fn channel_id_fixed_vectors() {
    assert_eq!(get_channel_id(""), 1120186595);
    assert_eq!(get_channel_id("hello"), -1169296852);
    assert_eq!(get_channel_id("rust"), -907731118);
    assert_eq!(get_channel_id("go"), 451072076);
    assert_eq!(get_channel_id("zig"), -1711346825);
    assert_eq!(get_channel_id("héllo"), 492390460);
}

#[test]
fn channel_id_is_deterministic() {
    let a = String::from("chat");
    let b = format!("{}{}", "ch", "at");
    assert_eq!(get_channel_id(&a), get_channel_id(&b));
    assert_ne!(get_channel_id("chat"), get_channel_id("chats"));
}
