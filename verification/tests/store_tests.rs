use chat_core::domain::NewConversation;
use chat_core::store::Store;

#[test]
fn new_store_is_empty() {
    let s = Store::new();
    assert!(s.get_all_users().is_empty());
    assert!(s.get_all_rooms().unwrap().is_empty());
}

#[test]
fn insert_new_user_generates_identity_and_timestamp() {
    let mut s = Store::new();
    let u = s.insert_new_user("alice", "111");
    assert_eq!(u.username, "alice");
    assert_eq!(u.phone, "111");
    // a version-4 identifier rendered in hyphenated form
    assert_eq!(u.id.len(), 36);
    assert!(u.id.chars().all(|c| c.is_ascii_hexdigit() || c == '-'));
    assert!(u.created_at.len() >= 19);
    assert_eq!(s.get_all_users(), vec![u]);
}

#[test]
fn find_user_by_uid_and_phone() {
    let mut s = Store::new();
    let a = s.insert_new_user("alice", "111");
    let b = s.insert_new_user("bob", "222");
    assert_eq!(s.find_user_by_uid(&a.id), Some(a.clone()));
    assert_eq!(s.find_user_by_uid(&"missing".to_string()), None);
    assert_eq!(s.find_user_by_phone(&"222".to_string()), Some(b));
    assert_eq!(s.find_user_by_phone(&"333".to_string()), None);
}

#[test]
fn fresh_identifiers_differ_between_calls() {
    let mut s = Store::new();
    let a = s.insert_new_user("alice", "111");
    let b = s.insert_new_user("alice", "111");
    assert_ne!(a.id, b.id);
}

#[test]
fn duplicate_phone_is_not_rejected() {
    let mut s = Store::new();
    s.insert_new_user("alice", "111");
    let again = s.insert_new_user("alice2", "111");
    assert_eq!(s.find_user_by_phone(&"111".to_string()).unwrap().username, "alice");
    assert_eq!(s.get_all_users().len(), 2);
    assert_eq!(again.phone, "111");
}

#[test]
fn conversations_filter_by_room_in_order() {
    let mut s = Store::new();
    let c1 = s.insert_new_conversation(NewConversation {
        user_id: "u1".to_string(),
        room_id: "r1".to_string(),
        message: "one".to_string(),
    });
    let _other = s.insert_new_conversation(NewConversation {
        user_id: "u2".to_string(),
        room_id: "r2".to_string(),
        message: "elsewhere".to_string(),
    });
    let c2 = s.insert_new_conversation(NewConversation {
        user_id: "u2".to_string(),
        room_id: "r1".to_string(),
        message: "two".to_string(),
    });
    let got = s.get_conversation_by_room_id(&"r1".to_string());
    assert_eq!(got, vec![c1, c2]);
}

// A nonexistent room id yields none from the preview update, and an
// empty conversation list rather than an error.
#[test]
fn unknown_room_update_is_none_and_conversations_empty() {
    let mut s = Store::new();
    let updated = s.update_last_message_in_room(&"room-X".to_string(), &"hi".to_string());
    assert!(updated.is_none());
    let convos = s.get_conversation_by_room_id(&"room-X".to_string());
    assert!(convos.is_empty());
}

#[test]
fn update_last_message_refreshes_the_room() {
    let mut s = Store::new();
    let u = s.insert_new_user("alice", "111");
    s.insert_new_user("bob", "222");
    s.insert_list_room(&u.id.clone()).unwrap();
    let room_id = {
        let rooms = s.get_all_rooms().unwrap();
        rooms[0].room.id.clone()
    };
    let refreshed = s.update_last_message_in_room(&room_id, &"hello there".to_string()).unwrap();
    assert_eq!(refreshed.id, room_id);
    assert_eq!(refreshed.last_message, "hello there");
    let rooms = s.get_all_rooms().unwrap();
    assert_eq!(rooms[0].room.last_message, "hello there");
}
