use chat_core::aggregate::{batch_users_by_ids, build_room_responses};
use chat_core::domain::{DomainError, Room, User};
use chat_core::store::Store;

fn user(id: &str, name: &str, phone: &str) -> User {
    User {
        id: id.to_string(),
        username: name.to_string(),
        phone: phone.to_string(),
        created_at: "t0".to_string(),
    }
}

fn room(id: &str, name: &str, pids: &[&str]) -> Room {
    Room {
        id: id.to_string(),
        name: name.to_string(),
        last_message: "".to_string(),
        participant_ids: pids.iter().map(|p| p.to_string()).collect(),
        created_at: "t0".to_string(),
    }
}

// Each participant appears exactly once in the response's user list,
// at the position it holds in the participant list.
#[test]
fn participants_map_one_to_one_in_order() {
    let rooms = vec![room("r1", "pair", &["u2", "u1"])];
    let users = vec![user("u1", "alice", "1"), user("u2", "bob", "2")];
    let resps = build_room_responses(&rooms, &users).unwrap();
    assert_eq!(resps.len(), 1);
    let got: Vec<&str> = resps[0].users.iter().map(|u| u.id.as_str()).collect();
    assert_eq!(got, vec!["u2", "u1"]);
    assert_eq!(resps[0].users.iter().filter(|u| u.id == "u1").count(), 1);
    assert_eq!(resps[0].users.iter().filter(|u| u.id == "u2").count(), 1);
}

// The single batched lookup keeps exactly the referenced users, in
// storage order, so it loses nothing against the full table.
#[test]
fn batched_lookup_selects_referenced_users_in_storage_order() {
    let users = vec![user("u1", "alice", "1"), user("u2", "bob", "2"), user("u3", "eve", "3")];
    let ids = vec!["u3".to_string(), "u1".to_string()];
    let batch = batch_users_by_ids(&users, &ids);
    let got: Vec<&str> = batch.iter().map(|u| u.id.as_str()).collect();
    assert_eq!(got, vec!["u1", "u3"]);
}

#[test]
fn rooms_for_user_keeps_only_member_rooms() {
    let mut s = Store::new();
    let a = s.insert_new_user("alice", "1");
    let b = s.insert_new_user("bob", "2");
    s.insert_list_room(&a.id.clone()).unwrap();
    let mine = s.get_rooms_by_uid(&a.id).unwrap();
    assert_eq!(mine.len(), 1);
    assert_eq!(mine[0].room.name, "bob");
    assert_eq!(mine[0].room.last_message, "Let's start the conversation");
    assert_eq!(mine[0].room.participant_ids, vec![a.id.clone(), b.id.clone()]);
    assert_eq!(mine[0].users[0].id, a.id);
    assert_eq!(mine[0].users[1].id, b.id);
    let theirs = s.get_rooms_by_uid(&"nobody".to_string()).unwrap();
    assert!(theirs.is_empty());
}

// Provisioning twice for the same user doubles the rooms listing it:
// the behavior is not idempotent, and deliberately so.
#[test]
fn provisioning_twice_duplicates_pairwise_rooms() {
    let mut s = Store::new();
    let me = s.insert_new_user("me", "0");
    s.insert_new_user("peer1", "1");
    s.insert_new_user("peer2", "2");
    let uid = me.id.clone();
    let first = s.insert_list_room(&uid).unwrap();
    assert_eq!(first.len(), 2);
    let second = s.insert_list_room(&uid).unwrap();
    assert_eq!(second.len(), 4);
    let mine = s
        .get_all_rooms()
        .unwrap()
        .into_iter()
        .filter(|r| r.room.participant_ids.contains(&uid))
        .count();
    assert_eq!(mine, 4);
}

// A room that references a user id storage does not hold is a
// referential-integrity fault naming that room and that id.
#[test]
fn missing_reference_is_reported_loudly() {
    let rooms = vec![room("r9", "ghost", &["u1", "zz"])];
    let users = vec![user("u1", "alice", "1")];
    let err = build_room_responses(&rooms, &users).unwrap_err();
    match err {
        DomainError::ReferentialIntegrityViolation { room_id, user_id } => {
            assert_eq!(room_id, "r9");
            assert_eq!(user_id, "zz");
        },
    }
}

#[test]
fn all_rooms_returns_every_room() {
    let mut s = Store::new();
    let a = s.insert_new_user("alice", "1");
    s.insert_new_user("bob", "2");
    s.insert_list_room(&a.id.clone()).unwrap();
    let all = s.get_all_rooms().unwrap();
    assert_eq!(all.len(), 1);
    assert_eq!(all[0].users.len(), 2);
}
