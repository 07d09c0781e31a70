use chat_core::numfmt::u64_to_string;
use chat_core::registry::{Delivery, Registry};

fn texts_for(dels: &[Delivery], to: u64) -> Vec<String> {
    dels.iter().filter(|d| d.to == to).map(|d| d.body.clone()).collect()
}

#[test]
fn decimal_rendering() {
    assert_eq!(u64_to_string(0), "0");
    assert_eq!(u64_to_string(7), "7");
    assert_eq!(u64_to_string(12345), "12345");
    assert_eq!(u64_to_string(u64::MAX), "18446744073709551615");
}

#[test]
fn connect_assigns_identities_and_notifies() {
    let mut reg = Registry::new();
    let (id0, dels0) = reg.connect(10);
    assert_eq!(id0, 0);
    // the newcomer is told its identity; nobody else is in "main" yet
    assert_eq!(dels0.len(), 1);
    assert_eq!(dels0[0].to, 0);
    assert_eq!(dels0[0].body, "your id is 0");
    let (id1, dels1) = reg.connect(11);
    assert_eq!(id1, 1);
    // the prior member hears the arrival, the newcomer its identity
    assert_eq!(dels1.len(), 2);
    assert_eq!(dels1[0].to, 0);
    assert_eq!(dels1[0].body, "Someone connected");
    assert_eq!(dels1[1].to, 1);
    assert_eq!(dels1[1].body, "your id is 1");
    assert_eq!(reg.list_rooms(), vec!["main".to_string()]);
}

// Two sessions in "main": a broadcast reaches both exactly once, in
// registration order, and successive broadcasts keep that order.
#[test]
fn broadcast_reaches_every_member_exactly_once_in_order() {
    let mut reg = Registry::new();
    let (a, _) = reg.connect(0);
    let (b, _) = reg.connect(0);
    let main = "main".to_string();
    let dels = reg.send_to_room(&main, &"T".to_string());
    assert_eq!(dels.len(), 2);
    assert_eq!((dels[0].to, dels[0].body.as_str()), (a, "T"));
    assert_eq!((dels[1].to, dels[1].body.as_str()), (b, "T"));
    let again = reg.send_to_room(&main, &"U".to_string());
    let order1: Vec<u64> = dels.iter().map(|d| d.to).collect();
    let order2: Vec<u64> = again.iter().map(|d| d.to).collect();
    assert_eq!(order1, order2);
}

// Connection 1 joins "lobby"; connection 2, still in "main", sends to
// "lobby": connection 1 receives it exactly once and connection 2,
// not a member, does not receive its own message.
#[test]
fn sender_outside_the_room_does_not_receive() {
    let mut reg = Registry::new();
    let (one, _) = reg.connect(0);
    let (two, _) = reg.connect(0);
    let lobby = "lobby".to_string();
    reg.join_room(one, &lobby);
    let dels = reg.send_to_room(&lobby, &"hello".to_string());
    assert_eq!(texts_for(&dels, one), vec!["hello".to_string()]);
    assert!(texts_for(&dels, two).is_empty());
}

// Disconnecting twice must not fail and must not notify room members
// a second time.
#[test]
fn disconnect_twice_is_a_silent_no_op() {
    let mut reg = Registry::new();
    let (a, _) = reg.connect(0);
    let (_b, _) = reg.connect(0);
    let first = reg.disconnect(a);
    assert_eq!(first.len(), 1);
    assert_eq!(first[0].body, "Someone disconnected");
    let second = reg.disconnect(a);
    assert!(second.is_empty());
    // a sweep right after the close does not notify either
    let (evicted, notices) = reg.sweep_liveness(100, 1000);
    assert!(evicted.is_empty());
    assert!(notices.is_empty());
}

#[test]
fn join_announces_leave_and_arrival() {
    let mut reg = Registry::new();
    let (a, _) = reg.connect(0);
    let (b, _) = reg.connect(0);
    let lobby = "lobby".to_string();
    reg.join_room(a, &lobby);
    // b moves too: a, already in the lobby, hears the arrival; the
    // leave notice for "main" has no remaining audience
    let dels = reg.join_room(b, &lobby);
    assert_eq!(dels.len(), 1);
    assert_eq!(dels[0].to, a);
    assert_eq!(dels[0].body, "Someone connected");
    assert_eq!(reg.list_rooms(), vec!["main".to_string(), "lobby".to_string()]);
}

#[test]
fn sweep_evicts_only_silent_sessions() {
    let mut reg = Registry::new();
    let (a, _) = reg.connect(0);
    let (b, _) = reg.connect(0);
    reg.heartbeat(b, 50);
    let (evicted, notices) = reg.sweep_liveness(55, 10);
    assert_eq!(evicted, vec![a]);
    // the survivor hears the departure from "main"
    assert_eq!(notices.len(), 1);
    assert_eq!(notices[0].to, b);
    assert_eq!(notices[0].body, "Someone disconnected");
    // the survivor still receives broadcasts
    let dels = reg.send_to_room(&"main".to_string(), &"still here".to_string());
    assert_eq!(dels.len(), 1);
    assert_eq!(dels[0].to, b);
}

#[test]
fn liveness_at_the_threshold_is_kept() {
    let mut reg = Registry::new();
    let (a, _) = reg.connect(0);
    // last_seen + timeout == now is not older than the threshold
    let (evicted, _) = reg.sweep_liveness(10, 10);
    assert!(evicted.is_empty());
    let dels = reg.send_to_room(&"main".to_string(), &"x".to_string());
    assert_eq!(dels.len(), 1);
    assert_eq!(dels[0].to, a);
}
