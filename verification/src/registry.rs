//! The registry: the single authoritative coordinator of live
//! sessions and room membership. It owns the session records, routes
//! room broadcasts as explicit deliveries, and evicts sessions whose
//! liveness has expired. The caller performs the actual transport
//! writes; every decision is made, and proved, here.

use vstd::prelude::*;

use crate::{default_room, default_room_name};
use crate::numfmt::{dec_rep, u64_to_string};

verus! {

/// Runtime record of one live connection.
pub struct SessionRec {
    pub id: u64,
    pub last_seen: u64,
    pub room: String,
    pub name: Option<String>,
}

/// One room's member list, in registration order.
pub struct RoomEntry {
    pub name: String,
    pub members: Vec<u64>,
}

/// One outbound transport write: which session, what text.
pub struct Delivery {
    pub to: u64,
    pub body: String,
}

/// The registry state: all live sessions, the room membership map,
/// and the monotonic identity counter.
pub struct Registry {
    pub sessions: Vec<SessionRec>,
    pub rooms: Vec<RoomEntry>,
    pub next_id: u64,
}

/// A session with this id is registered.
pub open spec fn has_session(r: Registry, id: u64) -> bool {
    exists|k: int| 0 <= k < r.sessions@.len() && r.sessions@[k].id == id
}

/// The registered record with this id (ids are unique under `wf`).
pub open spec fn session_record(sessions: Seq<SessionRec>, id: u64) -> SessionRec {
    sessions[choose|k: int| 0 <= k < sessions.len() && sessions[k].id == id]
}

/// Some registered session with this id currently sits in this room.
pub open spec fn session_in_room(sessions: Seq<SessionRec>, id: u64, name: Seq<char>) -> bool {
    exists|k: int|
        0 <= k < sessions.len() && sessions[k].id == id && sessions[k].room@ == name
}

/// Some room entry carries the session's room name and lists its id:
/// the session is registered in both maps.
pub open spec fn listed_in_rooms(rooms: Seq<RoomEntry>, rec: SessionRec) -> bool {
    exists|r: int|
        0 <= r < rooms.len() && rooms[r].name@ == rec.room@ && (
        #[trigger] rooms[r].members@).contains(rec.id)
}

/// The first room entry carrying the given name, or none.
pub open spec fn first_room_entry(rooms: Seq<RoomEntry>, name: Seq<char>) -> Option<RoomEntry>
    decreases rooms.len(),
{
    if rooms.len() == 0 {
        None
    } else {
        let prefix = first_room_entry(rooms.drop_last(), name);
        if prefix is Some {
            prefix
        } else if rooms.last().name@ == name {
            Some(rooms.last())
        } else {
            None
        }
    }
}

/// The member list to notify for a room name: the entry's members,
/// or empty when the room is unknown.
pub open spec fn members_of(rooms: Seq<RoomEntry>, name: Seq<char>) -> Seq<u64> {
    match first_room_entry(rooms, name) {
        Some(e) => e.members@,
        None => Seq::empty(),
    }
}

/// The member list with every occurrence of one id removed, order
/// otherwise kept.
pub open spec fn remove_id(s: Seq<u64>, id: u64) -> Seq<u64>
    decreases s.len(),
{
    if s.len() == 0 {
        Seq::empty()
    } else {
        let prefix = remove_id(s.drop_last(), id);
        if s.last() == id {
            prefix
        } else {
            prefix.push(s.last())
        }
    }
}

/// A session this old has fallen silent for longer than the timeout.
pub open spec fn expired(rec: SessionRec, now: u64, timeout: u64) -> bool {
    rec.last_seen + timeout < now
}

/// The ids of the expired sessions, in registration order.
pub open spec fn expired_ids(sessions: Seq<SessionRec>, now: u64, timeout: u64) -> Seq<u64>
    decreases sessions.len(),
{
    if sessions.len() == 0 {
        Seq::empty()
    } else {
        let prefix = expired_ids(sessions.drop_last(), now, timeout);
        if expired(sessions.last(), now, timeout) {
            prefix.push(sessions.last().id)
        } else {
            prefix
        }
    }
}

/// A match found in a prefix of the room list is the match for the
/// whole list.
pub proof fn lemma_first_room_entry_extend(rooms: Seq<RoomEntry>, name: Seq<char>, n: int)
    requires
        0 <= n <= rooms.len(),
        first_room_entry(rooms.take(n), name) is Some,
    ensures
        first_room_entry(rooms, name) == first_room_entry(rooms.take(n), name),
    decreases rooms.len(),
{
    if n == rooms.len() {
        assert(rooms.take(n) =~= rooms);
    } else {
        let prefix = rooms.drop_last();
        assert(prefix.take(n) =~= rooms.take(n));
        lemma_first_room_entry_extend(prefix, name, n);
    }
}

/// The entry scan finds an entry exactly when one carries the name,
/// and what it finds is a stored entry with that name.
pub proof fn lemma_first_room_entry_characterizes(rooms: Seq<RoomEntry>, name: Seq<char>)
    ensures
        first_room_entry(rooms, name) is Some <==> exists|k: int|
            0 <= k < rooms.len() && rooms[k].name@ == name,
        first_room_entry(rooms, name) is Some ==> {
            let e = first_room_entry(rooms, name)->0;
            e.name@ == name && rooms.contains(e)
        },
    decreases rooms.len(),
{
    if rooms.len() == 0 {
    } else {
        let prefix = rooms.drop_last();
        lemma_first_room_entry_characterizes(prefix, name);
        if first_room_entry(rooms, name) is Some {
            let e = first_room_entry(rooms, name)->0;
            if first_room_entry(prefix, name) is Some {
                let k = choose|k: int| 0 <= k < prefix.len() && prefix[k] == e;
                assert(rooms[k] == e);
                let j = choose|j: int| 0 <= j < prefix.len() && prefix[j].name@ == name;
                assert(rooms[j].name@ == name);
            } else {
                assert(rooms[rooms.len() - 1].name@ == name);
                assert(rooms.contains(rooms.last()));
            }
        }
        if (exists|k: int| 0 <= k < rooms.len() && rooms[k].name@ == name) && first_room_entry(
            rooms,
            name,
        ) is None {
            let k = choose|k: int| 0 <= k < rooms.len() && rooms[k].name@ == name;
            if k < rooms.len() - 1 {
                assert(prefix[k].name@ == name);
            }
            assert(false);
        }
    }
}

/// What survives the removal of an id: exactly the other members.
pub proof fn lemma_remove_id_membership(s: Seq<u64>, id: u64, x: u64)
    ensures
        remove_id(s, id).contains(x) <==> s.contains(x) && x != id,
    decreases s.len(),
{
    if s.len() == 0 {
    } else {
        let prefix = s.drop_last();
        lemma_remove_id_membership(prefix, id, x);
        let r = remove_id(s, id);
        let rp = remove_id(prefix, id);
        if r.contains(x) {
            let k = choose|k: int| 0 <= k < r.len() && r[k] == x;
            if s.last() != id && k == r.len() - 1 {
                assert(s[s.len() - 1] == x);
            } else {
                assert(rp[k] == x);
                assert(rp.contains(x));
                let j = choose|j: int| 0 <= j < prefix.len() && prefix[j] == x;
                assert(s[j] == x);
            }
        }
        if s.contains(x) && x != id {
            let k = choose|k: int| 0 <= k < s.len() && s[k] == x;
            if k < s.len() - 1 {
                assert(prefix[k] == x);
                assert(prefix.contains(x));
                let j = choose|j: int| 0 <= j < rp.len() && rp[j] == x;
                assert(r[j] == x);
            } else {
                assert(s.last() == x);
                assert(r[r.len() - 1] == x);
            }
        }
    }
}

/// Removal keeps a duplicate-free member list duplicate-free.
pub proof fn lemma_remove_id_distinct(s: Seq<u64>, id: u64)
    requires
        forall|a: int, b: int| 0 <= a < b < s.len() ==> s[a] != s[b],
    ensures
        forall|a: int, b: int|
            0 <= a < b < remove_id(s, id).len() ==> remove_id(s, id)[a] != remove_id(s, id)[b],
    decreases s.len(),
{
    if s.len() == 0 {
    } else {
        let prefix = s.drop_last();
        assert forall|a: int, b: int| 0 <= a < b < prefix.len() implies prefix[a] != prefix[b] by {
            assert(s[a] == prefix[a] && s[b] == prefix[b]);
        }
        lemma_remove_id_distinct(prefix, id);
        if s.last() != id {
            let rp = remove_id(prefix, id);
            assert forall|a: int, b: int|
                0 <= a < b < remove_id(s, id).len() implies remove_id(s, id)[a] != remove_id(
                s,
                id,
            )[b] by {
                if b == remove_id(s, id).len() - 1 {
                    if rp.contains(s.last()) {
                        lemma_remove_id_membership(prefix, id, s.last());
                        let k = choose|k: int| 0 <= k < prefix.len() && prefix[k] == s.last();
                        assert(s[k] == s[s.len() - 1]);
                        assert(false);
                    }
                    assert(rp.contains(rp[a]));
                }
            }
        }
    }
}

/// An id appears among the expired ids exactly when a registered
/// record with that id has expired.
pub proof fn lemma_expired_ids_membership(sessions: Seq<SessionRec>, now: u64, timeout: u64, x: u64)
    ensures
        expired_ids(sessions, now, timeout).contains(x) <==> exists|k: int|
            0 <= k < sessions.len() && sessions[k].id == x && expired(sessions[k], now, timeout),
    decreases sessions.len(),
{
    if sessions.len() == 0 {
    } else {
        let prefix = sessions.drop_last();
        lemma_expired_ids_membership(prefix, now, timeout, x);
        let r = expired_ids(sessions, now, timeout);
        let rp = expired_ids(prefix, now, timeout);
        if r.contains(x) {
            let k = choose|k: int| 0 <= k < r.len() && r[k] == x;
            if expired(sessions.last(), now, timeout) && k == r.len() - 1 {
                assert(sessions[sessions.len() - 1].id == x);
            } else {
                assert(rp[k] == x);
                assert(rp.contains(x));
                let j = choose|j: int|
                    0 <= j < prefix.len() && prefix[j].id == x && expired(prefix[j], now, timeout);
                assert(sessions[j].id == x && expired(sessions[j], now, timeout));
            }
        }
        if exists|k: int|
            0 <= k < sessions.len() && sessions[k].id == x && expired(sessions[k], now, timeout) {
            let k = choose|k: int|
                0 <= k < sessions.len() && sessions[k].id == x && expired(
                    sessions[k],
                    now,
                    timeout,
                );
            if k < sessions.len() - 1 {
                assert(prefix[k].id == x && expired(prefix[k], now, timeout));
                let j = choose|j: int| 0 <= j < rp.len() && rp[j] == x;
                assert(r[j] == x);
            } else {
                assert(r[r.len() - 1] == x);
            }
        }
    }
}

impl Registry {
    /// Well-formedness: session ids unique and below the counter,
    /// room names unique, member lists duplicate-free, and every
    /// member id backed by a registered session sitting in that room.
    pub open spec fn wf(self) -> bool {
        &&& forall|a: int, b: int|
            0 <= a < b < self.sessions@.len() ==> self.sessions@[a].id != self.sessions@[b].id
        &&& forall|k: int|
            0 <= k < self.sessions@.len() ==> (#[trigger] self.sessions@[k].id) < self.next_id
        &&& forall|a: int, b: int|
            0 <= a < b < self.rooms@.len() ==> self.rooms@[a].name@ != self.rooms@[b].name@
        &&& forall|r: int, a: int, b: int|
            0 <= r < self.rooms@.len() && 0 <= a < b < self.rooms@[r].members@.len() ==> #[trigger] self.rooms@[r].members@[a]
                != #[trigger] self.rooms@[r].members@[b]
        &&& forall|r: int, m: int|
            0 <= r < self.rooms@.len() && 0 <= m < self.rooms@[r].members@.len()
                ==> session_in_room(
                self.sessions@,
                #[trigger] self.rooms@[r].members@[m],
                self.rooms@[r].name@,
            )
        &&& forall|k: int|
            0 <= k < self.sessions@.len() ==> listed_in_rooms(
                self.rooms@,
                #[trigger] self.sessions@[k],
            )
    }

    /// An empty registry: no sessions, no rooms, identities start at
    /// zero.
    pub fn new() -> (r: Registry)
        ensures
            r.wf(),
            r.sessions@.len() == 0,
            r.rooms@.len() == 0,
            r.next_id == 0,
    {
        Registry { sessions: Vec::new(), rooms: Vec::new(), next_id: 0 }
    }

    /// A snapshot of the known room names, in creation order.
    pub fn list_rooms(&self) -> (r: Vec<String>)
        ensures
            r@.len() == self.rooms@.len(),
            forall|i: int| 0 <= i < r@.len() ==> (#[trigger] r@[i])@ == self.rooms@[i].name@,
    {
        let n = self.rooms.len();
        let mut r: Vec<String> = Vec::new();
        let mut i: usize = 0;
        while i < n
            invariant
                n == self.rooms@.len(),
                0 <= i <= n,
                r@.len() == i,
                forall|k: int| 0 <= k < i ==> (#[trigger] r@[k])@ == self.rooms@[k].name@,
            decreases n - i,
        {
            r.push(self.rooms[i].name.clone());
            i += 1;
        }
        r
    }

    /// Delivers the text to every member of the room, in registration
    /// order, the sender included when it is a member; no room, no
    /// deliveries. The decision is taken from this one snapshot.
    pub fn send_to_room(&self, room: &String, text: &String) -> (dels: Vec<Delivery>)
        ensures
            dels@.len() == members_of(self.rooms@, room@).len(),
            forall|i: int|
                0 <= i < dels@.len() ==> (#[trigger] dels@[i]).to == members_of(
                    self.rooms@,
                    room@,
                )[i] && dels@[i].body@ == text@,
    {
        match self.find_room_index(room) {
            Some(r) => {
                proof {
                    lemma_first_room_entry_found(self.rooms@, room@, r as int);
                }
                notify_members(&self.rooms[r].members, text.as_str())
            },
            None => {
                proof {
                    lemma_first_room_entry_characterizes(self.rooms@, room@);
                }
                Vec::new()
            },
        }
    }

    /// The index of the first session record with this id.
    fn find_session_index(&self, id: u64) -> (r: Option<usize>)
        ensures
            r is Some ==> {
                &&& 0 <= r->0 < self.sessions@.len()
                &&& self.sessions@[r->0 as int].id == id
                &&& forall|j: int| 0 <= j < r->0 ==> (#[trigger] self.sessions@[j]).id != id
            },
            r is None ==> !has_session(*self, id),
    {
        let n = self.sessions.len();
        let mut i: usize = 0;
        while i < n
            invariant
                n == self.sessions@.len(),
                0 <= i <= n,
                forall|j: int| 0 <= j < i ==> (#[trigger] self.sessions@[j]).id != id,
            decreases n - i,
        {
            if self.sessions[i].id == id {
                return Some(i);
            }
            i += 1;
        }
        None
    }

    /// The index of the first room entry with this name.
    fn find_room_index(&self, name: &String) -> (r: Option<usize>)
        ensures
            r is Some ==> {
                &&& 0 <= r->0 < self.rooms@.len()
                &&& self.rooms@[r->0 as int].name@ == name@
                &&& forall|j: int| 0 <= j < r->0 ==> (#[trigger] self.rooms@[j]).name@ != name@
            },
            r is None ==> first_room_entry(self.rooms@, name@) is None,
    {
        let n = self.rooms.len();
        let mut i: usize = 0;
        while i < n
            invariant
                n == self.rooms@.len(),
                0 <= i <= n,
                forall|j: int| 0 <= j < i ==> (#[trigger] self.rooms@[j]).name@ != name@,
                first_room_entry(self.rooms@.take(i as int), name@) is None,
            decreases n - i,
        {
            proof {
                assert(self.rooms@.take(i + 1).drop_last() =~= self.rooms@.take(i as int));
                assert(self.rooms@.take(i + 1).last() == self.rooms@[i as int]);
            }
            if self.rooms[i].name == *name {
                return Some(i);
            }
            i += 1;
        }
        proof {
            assert(self.rooms@.take(n as int) =~= self.rooms@);
        }
        None
    }
}

/// Everything `disconnect` guarantees, in one place: a no-op on an
/// unknown id, removal of the one matching session and of its room
/// membership otherwise, and one leave notice per remaining member of
/// its room. Calling it again for the same id is a silent no-op.
pub open spec fn disconnect_post(pre: Registry, post: Registry, id: u64, dels: Seq<Delivery>) -> bool {
    &&& post.wf()
    &&& post.next_id == pre.next_id
    &&& (!has_session(pre, id) ==> post == pre && dels.len() == 0)
    &&& !has_session(post, id)
    &&& (forall|rec: SessionRec| post.sessions@.contains(rec) ==> pre.sessions@.contains(rec))
    &&& (forall|rec: SessionRec|
        pre.sessions@.contains(rec) && rec.id != id ==> post.sessions@.contains(rec))
    &&& post.rooms@.len() == pre.rooms@.len()
    &&& (forall|r: int|
        0 <= r < pre.rooms@.len() ==> (#[trigger] post.rooms@[r]).name@ == pre.rooms@[r].name@
            && post.rooms@[r].members@ == remove_id(pre.rooms@[r].members@, id))
    &&& (has_session(pre, id) ==> {
        let rm = session_record(pre.sessions@, id).room@;
        let remaining = remove_id(members_of(pre.rooms@, rm), id);
        &&& dels.len() == remaining.len()
        &&& forall|i: int|
            0 <= i < dels.len() ==> (#[trigger] dels[i]).to == remaining[i] && dels[i].body@
                == "Someone disconnected"@
    })
}

impl Registry {
    /// Allocates the next identity, registers a fresh session in the
    /// default room in both maps, announces the arrival to the prior
    /// members and hands the newcomer its identity notice.
    pub fn connect(&mut self, now: u64) -> (res: (u64, Vec<Delivery>))
        requires
            old(self).wf(),
            old(self).next_id < u64::MAX,
        ensures
            final(self).wf(),
            final(self).next_id == old(self).next_id + 1,
            res.0 == old(self).next_id,
            final(self).sessions@.len() == old(self).sessions@.len() + 1,
            final(self).sessions@.drop_last() == old(self).sessions@,
            final(self).sessions@.last().id == res.0,
            final(self).sessions@.last().last_seen == now,
            final(self).sessions@.last().room@ == default_room(),
            final(self).sessions@.last().name is None,
            has_session(*final(self), res.0),
            members_of(final(self).rooms@, default_room()) == members_of(
                old(self).rooms@,
                default_room(),
            ).push(res.0),
            res.1@.len() == members_of(old(self).rooms@, default_room()).len() + 1,
            forall|i: int|
                0 <= i < res.1@.len() - 1 ==> (#[trigger] res.1@[i]).to == members_of(
                    old(self).rooms@,
                    default_room(),
                )[i] && res.1@[i].body@ == "Someone connected"@,
            res.1@.last().to == res.0,
            res.1@.last().body@ == "your id is "@ + dec_rep(res.0 as int),
    {
        let id = self.next_id;
        self.next_id = self.next_id + 1;
        let ghost pre = *old(self);
        let room_name = default_room_name();
        let ghost mut main_idx: int = 0;
        let mut dels: Vec<Delivery>;
        match self.find_room_index(&room_name) {
            Some(r) => {
                dels = notify_members(&self.rooms[r].members, "Someone connected");
                proof {
                    main_idx = r as int;
                    lemma_first_room_entry_found(pre.rooms@, default_room(), r as int);
                    assert forall|m: int|
                        0 <= m < pre.rooms@[r as int].members@.len() implies pre.rooms@[r as int].members@[m]
                        != id by {
                        assert(session_in_room(
                            pre.sessions@,
                            pre.rooms@[r as int].members@[m],
                            pre.rooms@[r as int].name@,
                        ));
                    }
                }
                let mut entry = self.rooms.remove(r);
                entry.members.push(id);
                self.rooms.insert(r, entry);
                proof {
                    assert(self.rooms@ =~= pre.rooms@.update(r as int, self.rooms@[r as int]));
                    lemma_first_room_entry_found(self.rooms@, default_room(), r as int);
                }
            },
            None => {
                dels = Vec::new();
                proof {
                    main_idx = pre.rooms@.len() as int;
                    lemma_first_room_entry_characterizes(pre.rooms@, default_room());
                }
                let mut members: Vec<u64> = Vec::new();
                members.push(id);
                self.rooms.push(RoomEntry { name: room_name, members });
                proof {
                    lemma_first_room_entry_found(
                        self.rooms@,
                        default_room(),
                        pre.rooms@.len() as int,
                    );
                    assert(members_of(pre.rooms@, default_room()) =~= Seq::<u64>::empty());
                    assert(members_of(self.rooms@, default_room()) =~= members_of(
                        pre.rooms@,
                        default_room(),
                    ).push(id));
                }
            },
        }
        proof {
            assert(0 <= main_idx < self.rooms@.len());
            assert(self.rooms@[main_idx].name@ == default_room());
            assert(self.rooms@[main_idx].members@ == members_of(pre.rooms@, default_room()).push(
                id,
            ));
            let ms = self.rooms@[main_idx].members@;
            assert(ms[ms.len() - 1] == id);
            assert(ms.contains(id));
            assert forall|r2: int|
                0 <= r2 < pre.rooms@.len() && r2 != main_idx implies self.rooms@[r2]
                == pre.rooms@[r2] by {}
            assert(main_idx < pre.rooms@.len() ==> self.rooms@[main_idx].members@
                == pre.rooms@[main_idx].members@.push(id));
        }
        let session_room = default_room_name();
        self.sessions.push(SessionRec { id, last_seen: now, room: session_room, name: None });
        let mut idmsg = "your id is ".to_owned();
        let digits = u64_to_string(id);
        idmsg.append(digits.as_str());
        dels.push(Delivery { to: id, body: idmsg });
        proof {
            let fin = *self;
            assert(fin.sessions@.drop_last() =~= pre.sessions@);
            assert forall|a: int, b: int|
                0 <= a < b < fin.sessions@.len() implies fin.sessions@[a].id != fin.sessions@[b].id by {
                if b == fin.sessions@.len() - 1 {
                    assert(pre.sessions@[a].id < pre.next_id);
                }
            }
            assert forall|r2: int, m: int|
                0 <= r2 < fin.rooms@.len() && 0 <= m < fin.rooms@[r2].members@.len() implies session_in_room(
                fin.sessions@,
                #[trigger] fin.rooms@[r2].members@[m],
                fin.rooms@[r2].name@,
            ) by {
                let x = fin.rooms@[r2].members@[m];
                if x == id {
                    assert(fin.sessions@[fin.sessions@.len() - 1].id == id);
                } else {
                    assert(session_in_room(pre.sessions@, x, fin.rooms@[r2].name@));
                    let j = choose|j: int|
                        0 <= j < pre.sessions@.len() && pre.sessions@[j].id == x
                            && pre.sessions@[j].room@ == fin.rooms@[r2].name@;
                    assert(fin.sessions@[j] == pre.sessions@[j]);
                }
            }
            assert forall|k2: int|
                0 <= k2 < fin.sessions@.len() implies listed_in_rooms(
                fin.rooms@,
                #[trigger] fin.sessions@[k2],
            ) by {
                if k2 == fin.sessions@.len() - 1 {
                    assert(fin.rooms@[main_idx].name@ == fin.sessions@[k2].room@);
                    assert(fin.rooms@[main_idx].members@.contains(fin.sessions@[k2].id));
                } else {
                    assert(fin.sessions@[k2] == pre.sessions@[k2]);
                    let sid = pre.sessions@[k2].id;
                    let r0 = choose|r0: int|
                        0 <= r0 < pre.rooms@.len() && pre.rooms@[r0].name@
                            == pre.sessions@[k2].room@ && pre.rooms@[r0].members@.contains(sid);
                    if r0 == main_idx {
                        let ms0 = pre.rooms@[r0].members@;
                        let ix = choose|ix: int| 0 <= ix < ms0.len() && ms0[ix] == sid;
                        assert(fin.rooms@[r0].members@[ix] == sid);
                    } else {
                        assert(fin.rooms@[r0] == pre.rooms@[r0]);
                    }
                    assert(fin.rooms@[r0].name@ == pre.rooms@[r0].name@);
                    assert(fin.rooms@[r0].members@.contains(sid));
                }
            }
        }
        (id, dels)
    }

    /// Refreshes the liveness timestamp of the session with this id;
    /// a no-op when the id is not registered.
    pub fn heartbeat(&mut self, id: u64, now: u64)
        requires
            old(self).wf(),
        ensures
            final(self).wf(),
            final(self).next_id == old(self).next_id,
            final(self).rooms == old(self).rooms,
            final(self).sessions@.len() == old(self).sessions@.len(),
            !has_session(*old(self), id) ==> final(self).sessions == old(self).sessions,
            forall|k: int|
                0 <= k < old(self).sessions@.len() && old(self).sessions@[k].id != id
                    ==> #[trigger] final(self).sessions@[k] == old(self).sessions@[k],
            forall|k: int|
                0 <= k < old(self).sessions@.len() && old(self).sessions@[k].id == id ==> {
                    let prev = old(self).sessions@[k];
                    let cur = #[trigger] final(self).sessions@[k];
                    cur.id == prev.id && cur.last_seen == now && cur.room == prev.room && cur.name
                        == prev.name
                },
    {
        let ghost pre = *old(self);
        match self.find_session_index(id) {
            Some(k) => {
                let mut rec = self.sessions.remove(k);
                rec.last_seen = now;
                self.sessions.insert(k, rec);
                proof {
                    assert forall|j: int|
                        0 <= j < pre.sessions@.len() && j != k implies #[trigger] self.sessions@[j]
                        == pre.sessions@[j] by {
                        assert(self.sessions@ == pre.sessions@.remove(k as int).insert(
                            k as int,
                            self.sessions@[k as int],
                        ));
                    }
                    assert forall|r2: int, m: int|
                        0 <= r2 < self.rooms@.len() && 0 <= m
                            < self.rooms@[r2].members@.len() implies session_in_room(
                        self.sessions@,
                        #[trigger] self.rooms@[r2].members@[m],
                        self.rooms@[r2].name@,
                    ) by {
                        let x = self.rooms@[r2].members@[m];
                        assert(session_in_room(pre.sessions@, x, self.rooms@[r2].name@));
                        let j = choose|j: int|
                            0 <= j < pre.sessions@.len() && pre.sessions@[j].id == x
                                && pre.sessions@[j].room@ == self.rooms@[r2].name@;
                        assert(self.sessions@[j].id == x && self.sessions@[j].room@
                            == self.rooms@[r2].name@);
                    }
                }
            },
            None => {},
        }
    }

    /// Removes the session with this id from the session map and from
    /// its room's member list and notifies the remaining members;
    /// safe to call more than once: an unknown id changes nothing.
    pub fn disconnect(&mut self, id: u64) -> (dels: Vec<Delivery>)
        requires
            old(self).wf(),
        ensures
            disconnect_post(*old(self), *final(self), id, dels@),
    {
        let ghost pre = *old(self);
        let k = match self.find_session_index(id) {
            None => {
                proof {
                    lemma_rooms_without_session(pre, id);
                }
                return Vec::new();
            },
            Some(k) => k,
        };
        let rec = self.sessions.remove(k);
        proof {
            let j = choose|j: int| 0 <= j < pre.sessions@.len() && pre.sessions@[j].id == id;
            assert(j == k);
            assert(session_record(pre.sessions@, id) == rec);
            assert forall|i: int| 0 <= i < self.sessions@.len() implies self.sessions@[i].id
                != id by {
                if i < k {
                    assert(self.sessions@[i] == pre.sessions@[i]);
                } else {
                    assert(self.sessions@[i] == pre.sessions@[i + 1]);
                }
            }
        }
        match self.find_room_index(&rec.room) {
            None => {
                proof {
                    lemma_first_room_entry_characterizes(pre.rooms@, rec.room@);
                    assert forall|r2: int|
                        0 <= r2 < pre.rooms@.len() implies !pre.rooms@[r2].members@.contains(
                        id,
                    ) by {
                        lemma_room_of_member(pre, r2, id, k as int);
                    }
                    assert forall|r2: int|
                        0 <= r2 < pre.rooms@.len() implies (#[trigger] self.rooms@[r2]).members@
                        == remove_id(pre.rooms@[r2].members@, id) by {
                        lemma_remove_id_absent(pre.rooms@[r2].members@, id);
                    }
                    assert(members_of(pre.rooms@, rec.room@) =~= Seq::<u64>::empty());
                    assert(remove_id(Seq::<u64>::empty(), id) =~= Seq::<u64>::empty());
                    lemma_disconnect_session_shape(pre, *self, id, k as int);
                    assert forall|r2: int, m: int|
                        0 <= r2 < self.rooms@.len() && 0 <= m
                            < self.rooms@[r2].members@.len() implies session_in_room(
                        self.sessions@,
                        #[trigger] self.rooms@[r2].members@[m],
                        self.rooms@[r2].name@,
                    ) by {
                        let x = self.rooms@[r2].members@[m];
                        assert(pre.rooms@[r2].members@.contains(x));
                        assert(x != id);
                        assert(session_in_room(pre.sessions@, x, pre.rooms@[r2].name@));
                        let j = choose|j: int|
                            0 <= j < pre.sessions@.len() && pre.sessions@[j].id == x
                                && pre.sessions@[j].room@ == pre.rooms@[r2].name@;
                        if j < k {
                            assert(self.sessions@[j] == pre.sessions@[j]);
                        } else {
                            assert(j != k);
                            assert(self.sessions@[j - 1] == pre.sessions@[j]);
                        }
                    }
                    lemma_disconnect_both_maps(pre, *self, id, k as int);
                }
                Vec::new()
            },
            Some(r) => {
                let mut entry = self.rooms.remove(r);
                let new_members = remove_member_vec(&entry.members, id);
                entry.members = new_members;
                self.rooms.insert(r, entry);
                let dels = notify_members(&self.rooms[r].members, "Someone disconnected");
                proof {
                    assert(self.rooms@ =~= pre.rooms@.update(r as int, self.rooms@[r as int]));
                    lemma_first_room_entry_found(pre.rooms@, rec.room@, r as int);
                    assert forall|r2: int|
                        0 <= r2 < pre.rooms@.len() && r2 != r implies !pre.rooms@[
                    r2].members@.contains(id) by {
                        lemma_room_of_member(pre, r2, id, k as int);
                    }
                    assert forall|r2: int|
                        0 <= r2 < pre.rooms@.len() implies (#[trigger] self.rooms@[r2]).members@
                        == remove_id(pre.rooms@[r2].members@, id) by {
                        if r2 != r {
                            lemma_remove_id_absent(pre.rooms@[r2].members@, id);
                        }
                    }
                    lemma_disconnect_session_shape(pre, *self, id, k as int);
                    assert forall|r2: int, a: int, b: int|
                        0 <= r2 < self.rooms@.len() && 0 <= a < b
                            < self.rooms@[r2].members@.len() implies #[trigger] self.rooms@[
                    r2].members@[a] != #[trigger] self.rooms@[r2].members@[b] by {
                        lemma_remove_id_distinct(pre.rooms@[r2].members@, id);
                    }
                    assert forall|r2: int, m: int|
                        0 <= r2 < self.rooms@.len() && 0 <= m
                            < self.rooms@[r2].members@.len() implies session_in_room(
                        self.sessions@,
                        #[trigger] self.rooms@[r2].members@[m],
                        self.rooms@[r2].name@,
                    ) by {
                        let x = self.rooms@[r2].members@[m];
                        assert(self.rooms@[r2].members@.contains(x));
                        lemma_remove_id_membership(pre.rooms@[r2].members@, id, x);
                        let m0 = choose|m0: int|
                            0 <= m0 < pre.rooms@[r2].members@.len() && pre.rooms@[r2].members@[m0]
                                == x;
                        assert(session_in_room(pre.sessions@, x, pre.rooms@[r2].name@));
                        let j = choose|j: int|
                            0 <= j < pre.sessions@.len() && pre.sessions@[j].id == x
                                && pre.sessions@[j].room@ == pre.rooms@[r2].name@;
                        if j < k {
                            assert(self.sessions@[j] == pre.sessions@[j]);
                        } else {
                            assert(j != k);
                            assert(self.sessions@[j - 1] == pre.sessions@[j]);
                        }
                    }
                    lemma_disconnect_both_maps(pre, *self, id, k as int);
                }
                dels
            },
        }
    }
}

impl Registry {
    /// Moves the session to the named room, creating the room's
    /// member list on first use: the old room's remaining members see
    /// a leave notice, the new room's prior members a join notice.
    /// Joining the room the session already sits in changes nothing.
    #[verifier::rlimit(50)]
    pub fn join_room(&mut self, id: u64, new_room: &String) -> (dels: Vec<Delivery>)
        requires
            old(self).wf(),
        ensures
            final(self).wf(),
            final(self).next_id == old(self).next_id,
            !has_session(*old(self), id) ==> *final(self) == *old(self) && dels@.len() == 0,
            has_session(*old(self), id) && session_record(old(self).sessions@, id).room@
                == new_room@ ==> *final(self) == *old(self) && dels@.len() == 0,
            has_session(*old(self), id) ==> session_in_room(final(self).sessions@, id, new_room@),
            has_session(*old(self), id) && session_record(old(self).sessions@, id).room@
                != new_room@ ==> exists|r: int|
                0 <= r < final(self).rooms@.len() && (#[trigger] final(self).rooms@[r]).name@
                    == new_room@ && final(self).rooms@[r].members@.contains(id),
            forall|rec: SessionRec|
                old(self).sessions@.contains(rec) && rec.id != id
                    ==> final(self).sessions@.contains(rec),
            has_session(*old(self), id) && session_record(old(self).sessions@, id).room@
                != new_room@ ==> {
                let oldroom = session_record(old(self).sessions@, id).room@;
                let leavers = remove_id(members_of(old(self).rooms@, oldroom), id);
                let joiners = members_of(old(self).rooms@, new_room@);
                &&& dels@.len() == leavers.len() + joiners.len()
                &&& (forall|i: int|
                    0 <= i < leavers.len() ==> (#[trigger] dels@[i]).to == leavers[i]
                        && dels@[i].body@ == "Someone disconnected"@)
                &&& (forall|i: int|
                    0 <= i < joiners.len() ==> (#[trigger] dels@[leavers.len() + i]).to
                        == joiners[i] && dels@[leavers.len() + i].body@ == "Someone connected"@)
            },
    {
        let ghost pre = *old(self);
        let k = match self.find_session_index(id) {
            None => {
                return Vec::new();
            },
            Some(k) => k,
        };
        if self.sessions[k].room == *new_room {
            proof {
                let j = choose|j: int| 0 <= j < pre.sessions@.len() && pre.sessions@[j].id == id;
                assert(j == k);
                assert(session_record(pre.sessions@, id) == pre.sessions@[k as int]);
            }
            return Vec::new();
        }
        let mut rec = self.sessions.remove(k);
        proof {
            let j = choose|j: int| 0 <= j < pre.sessions@.len() && pre.sessions@[j].id == id;
            assert(j == k);
            assert(session_record(pre.sessions@, id) == rec);
        }
        let ghost old_room = rec.room@;
        let mut dels: Vec<Delivery>;
        match self.find_room_index(&rec.room) {
            Some(r_old) => {
                proof {
                    lemma_first_room_entry_found(pre.rooms@, rec.room@, r_old as int);
                }
                let mut entry = self.rooms.remove(r_old);
                let new_members = remove_member_vec(&entry.members, id);
                entry.members = new_members;
                self.rooms.insert(r_old, entry);
                proof {
                    assert(self.rooms@ =~= pre.rooms@.update(
                        r_old as int,
                        self.rooms@[r_old as int],
                    ));
                }
                dels = notify_members(&self.rooms[r_old].members, "Someone disconnected");
            },
            None => {
                proof {
                    lemma_first_room_entry_characterizes(pre.rooms@, rec.room@);
                    assert(members_of(pre.rooms@, rec.room@) =~= Seq::<u64>::empty());
                    assert(remove_id(Seq::<u64>::empty(), id) =~= Seq::<u64>::empty());
                }
                dels = Vec::new();
            },
        }
        let ghost mid = self.rooms@;
        proof {
            assert forall|r2: int| 0 <= r2 < pre.rooms@.len() implies {
                &&& (#[trigger] mid[r2]).name@ == pre.rooms@[r2].name@
                &&& !mid[r2].members@.contains(id)
                &&& (pre.rooms@[r2].name@ != old_room ==> mid[r2].members@
                    == pre.rooms@[r2].members@)
                &&& mid[r2].members@ == pre.rooms@[r2].members@ || mid[r2].members@ == remove_id(
                    pre.rooms@[r2].members@,
                    id,
                )
            } by {
                if pre.rooms@[r2].name@ != old_room {
                    lemma_room_of_member(pre, r2, id, k as int);
                    assert(mid[r2].members@ == pre.rooms@[r2].members@);
                } else {
                    lemma_remove_id_membership(pre.rooms@[r2].members@, id, id);
                }
            }
        }
        let ghost mut target: int = 0;
        match self.find_room_index(new_room) {
            Some(r_new) => {
                proof {
                    target = r_new as int;
                    lemma_first_room_entry_found(mid, new_room@, r_new as int);
                    assert forall|j: int| 0 <= j < r_new implies (#[trigger] pre.rooms@[j]).name@
                        != new_room@ by {
                        assert(mid[j].name@ == pre.rooms@[j].name@);
                    }
                    lemma_first_room_entry_found(pre.rooms@, new_room@, r_new as int);
                    assert(mid[r_new as int].members@ == pre.rooms@[r_new as int].members@);
                }
                let mut joins = notify_members(&self.rooms[r_new].members, "Someone connected");
                dels.append(&mut joins);
                let mut entry = self.rooms.remove(r_new);
                entry.members.push(id);
                self.rooms.insert(r_new, entry);
                proof {
                    assert(self.rooms@ =~= mid.update(r_new as int, self.rooms@[r_new as int]));
                    assert(self.rooms@[target].members@ == mid[target].members@.push(id));
                    let ms = self.rooms@[target].members@;
                    assert(ms[ms.len() - 1] == id);
                    assert(ms.contains(id));
                }
            },
            None => {
                proof {
                    target = mid.len() as int;
                    lemma_first_room_entry_characterizes(mid, new_room@);
                    assert forall|j: int|
                        0 <= j < pre.rooms@.len() implies (#[trigger] pre.rooms@[j]).name@
                        != new_room@ by {
                        assert(mid[j].name@ == pre.rooms@[j].name@);
                    }
                    lemma_first_room_entry_characterizes(pre.rooms@, new_room@);
                    assert(members_of(pre.rooms@, new_room@) =~= Seq::<u64>::empty());
                }
                let mut members: Vec<u64> = Vec::new();
                members.push(id);
                self.rooms.push(RoomEntry { name: new_room.clone(), members });
                proof {
                    assert(self.rooms@[target].members@ =~= seq![id]);
                    let ms = self.rooms@[target].members@;
                    assert(ms[0] == id);
                    assert(ms.contains(id));
                }
            },
        }
        proof {
            assert(0 <= target < self.rooms@.len());
            assert(self.rooms@[target].name@ == new_room@);
            assert(self.rooms@[target].members@.contains(id));
            assert(target < mid.len() ==> self.rooms@[target].members@ == mid[target].members@.push(
                id,
            ));
            assert(target == mid.len() ==> self.rooms@[target].members@ =~= seq![id]);
            assert forall|r2: int|
                0 <= r2 < self.rooms@.len() && r2 != target implies r2 < mid.len()
                && self.rooms@[r2] == mid[r2] by {}
        }
        rec.room = new_room.clone();
        self.sessions.insert(k, rec);
        proof {
            let fin = *self;
            assert(fin.sessions@ =~= pre.sessions@.update(k as int, fin.sessions@[k as int]));
            assert(fin.sessions@[k as int].id == id);
            assert(fin.sessions@[k as int].room@ == new_room@);
            assert forall|recx: SessionRec|
                pre.sessions@.contains(recx) && recx.id != id implies fin.sessions@.contains(
                recx,
            ) by {
                let i0 = choose|i0: int|
                    0 <= i0 < pre.sessions@.len() && pre.sessions@[i0] == recx;
                assert(i0 != k);
                assert(fin.sessions@[i0] == recx);
            }
            assert forall|i0: int| 0 <= i0 < fin.sessions@.len() implies #[trigger] fin.sessions@[
            i0].id == pre.sessions@[i0].id by {}
            assert forall|r2: int, m: int|
                0 <= r2 < fin.rooms@.len() && 0 <= m
                    < fin.rooms@[r2].members@.len() implies session_in_room(
                fin.sessions@,
                #[trigger] fin.rooms@[r2].members@[m],
                fin.rooms@[r2].name@,
            ) by {
                let x = fin.rooms@[r2].members@[m];
                if x == id {
                    assert(fin.rooms@[r2].members@.contains(id));
                    if r2 != target {
                        assert(fin.rooms@[r2].members@ == mid[r2].members@);
                        assert(mid[r2].members@.contains(id));
                        assert(false);
                    }
                    assert(fin.rooms@[r2].name@ == new_room@);
                    assert(fin.sessions@[k as int].id == id && fin.sessions@[k as int].room@
                        == new_room@);
                } else {
                    assert(mid.len() <= fin.rooms@.len() <= mid.len() + 1);
                    if r2 == target {
                        if target == mid.len() {
                            assert(fin.rooms@[r2].members@ =~= seq![id]);
                            assert(x == id);
                            assert(false);
                        }
                        assert(fin.rooms@[r2].members@ == mid[r2].members@.push(id));
                        assert(m < mid[r2].members@.len());
                        assert(mid[r2].members@[m] == x);
                    } else {
                        assert(fin.rooms@[r2].members@ == mid[r2].members@);
                    }
                    assert(r2 < mid.len());
                    assert(mid[r2].members@.contains(x));
                    if !pre.rooms@[r2].members@.contains(x) {
                        lemma_remove_id_membership(pre.rooms@[r2].members@, id, x);
                        assert(false);
                    }
                    assert(session_in_room(pre.sessions@, x, pre.rooms@[r2].name@));
                    let j = choose|j: int|
                        0 <= j < pre.sessions@.len() && pre.sessions@[j].id == x
                            && pre.sessions@[j].room@ == pre.rooms@[r2].name@;
                    assert(j != k);
                    assert(fin.sessions@[j] == pre.sessions@[j]);
                    assert(fin.rooms@[r2].name@ == pre.rooms@[r2].name@);
                }
            }
            assert forall|r2: int, a: int, b: int|
                0 <= r2 < mid.len() && 0 <= a < b < mid[r2].members@.len() implies mid[
            r2].members@[a] != mid[r2].members@[b] by {
                lemma_remove_id_distinct(pre.rooms@[r2].members@, id);
            }
            assert forall|r2: int, a: int, b: int|
                0 <= r2 < fin.rooms@.len() && 0 <= a < b
                    < fin.rooms@[r2].members@.len() implies #[trigger] fin.rooms@[r2].members@[a]
                != #[trigger] fin.rooms@[r2].members@[b] by {
                if r2 == target {
                    if target < mid.len() {
                        assert(fin.rooms@[r2].members@ == mid[r2].members@.push(id));
                        if b == fin.rooms@[r2].members@.len() - 1 {
                            assert(fin.rooms@[r2].members@[a] == mid[r2].members@[a]);
                            assert(mid[r2].members@.contains(mid[r2].members@[a]));
                            assert(fin.rooms@[r2].members@[a] != id);
                        } else {
                            assert(fin.rooms@[r2].members@[a] == mid[r2].members@[a]);
                            assert(fin.rooms@[r2].members@[b] == mid[r2].members@[b]);
                        }
                    } else {
                        assert(fin.rooms@[r2].members@ =~= seq![id]);
                    }
                } else {
                    assert(fin.rooms@[r2].members@ == mid[r2].members@);
                }
            }
            assert forall|k2: int|
                0 <= k2 < fin.sessions@.len() implies listed_in_rooms(
                fin.rooms@,
                #[trigger] fin.sessions@[k2],
            ) by {
                if k2 == k {
                    assert(fin.rooms@[target].name@ == fin.sessions@[k2].room@);
                    assert(fin.rooms@[target].members@.contains(id));
                } else {
                    assert(fin.sessions@[k2] == pre.sessions@[k2]);
                    let sid = pre.sessions@[k2].id;
                    assert(sid != id);
                    let r0 = choose|r0: int|
                        0 <= r0 < pre.rooms@.len() && pre.rooms@[r0].name@
                            == pre.sessions@[k2].room@ && pre.rooms@[r0].members@.contains(sid);
                    lemma_remove_id_membership(pre.rooms@[r0].members@, id, sid);
                    assert(mid[r0].members@.contains(sid));
                    if r0 == target {
                        let msx = mid[r0].members@;
                        let ix = choose|ix: int| 0 <= ix < msx.len() && msx[ix] == sid;
                        assert(fin.rooms@[r0].members@ == msx.push(id));
                        assert(fin.rooms@[r0].members@[ix] == sid);
                    } else {
                        assert(fin.rooms@[r0].members@ == mid[r0].members@);
                    }
                    assert(fin.rooms@[r0].members@.contains(sid));
                    assert(fin.rooms@[r0].name@ == pre.rooms@[r0].name@);
                }
            }
        }
        dels
    }

    /// Evicts every session whose liveness timestamp is older than
    /// `now` minus the timeout, exactly as `disconnect` would, and
    /// returns the evicted identities in registration order together
    /// with the leave notices produced along the way.
    pub fn sweep_liveness(&mut self, now: u64, timeout: u64) -> (res: (Vec<u64>, Vec<Delivery>))
        requires
            old(self).wf(),
        ensures
            final(self).wf(),
            final(self).next_id == old(self).next_id,
            res.0@ == expired_ids(old(self).sessions@, now, timeout),
            forall|rec: SessionRec|
                final(self).sessions@.contains(rec) ==> old(self).sessions@.contains(rec)
                    && !expired(rec, now, timeout),
            forall|rec: SessionRec|
                old(self).sessions@.contains(rec) && !expired(rec, now, timeout)
                    ==> final(self).sessions@.contains(rec),
            forall|i: int|
                0 <= i < res.1@.len() ==> (#[trigger] res.1@[i]).body@ == "Someone disconnected"@,
    {
        let ghost pre = *old(self);
        let n = self.sessions.len();
        let mut doomed: Vec<u64> = Vec::new();
        let mut i: usize = 0;
        while i < n
            invariant
                n == self.sessions@.len(),
                0 <= i <= n,
                *self == pre,
                doomed@ =~= expired_ids(self.sessions@.take(i as int), now, timeout),
            decreases n - i,
        {
            proof {
                assert(self.sessions@.take(i + 1).drop_last() =~= self.sessions@.take(i as int));
                assert(self.sessions@.take(i + 1).last() == self.sessions@[i as int]);
            }
            if timeout <= now && self.sessions[i].last_seen < now - timeout {
                doomed.push(self.sessions[i].id);
            }
            i += 1;
        }
        proof {
            assert(self.sessions@.take(n as int) =~= self.sessions@);
        }
        let m = doomed.len();
        let mut dels: Vec<Delivery> = Vec::new();
        let mut j: usize = 0;
        while j < m
            invariant
                m == doomed@.len(),
                0 <= j <= m,
                self.wf(),
                self.next_id == pre.next_id,
                doomed@ == expired_ids(pre.sessions@, now, timeout),
                forall|rec: SessionRec| self.sessions@.contains(rec) ==> pre.sessions@.contains(
                    rec,
                ),
                forall|rec: SessionRec|
                    pre.sessions@.contains(rec) && !doomed@.take(j as int).contains(rec.id)
                        ==> self.sessions@.contains(rec),
                forall|t: int| 0 <= t < j ==> !has_session(*self, #[trigger] doomed@[t]),
                forall|q: int|
                    0 <= q < dels@.len() ==> (#[trigger] dels@[q]).body@
                        == "Someone disconnected"@,
            decreases m - j,
        {
            let ghost before = *self;
            let mut d = self.disconnect(doomed[j]);
            proof {
                assert forall|rec: SessionRec|
                    pre.sessions@.contains(rec) && !doomed@.take(j + 1).contains(
                        rec.id,
                    ) implies self.sessions@.contains(rec) by {
                    assert forall|t: int| 0 <= t < j implies doomed@.take(j as int)[t]
                        == doomed@.take(j + 1)[t] by {}
                    if doomed@.take(j as int).contains(rec.id) {
                        let t = choose|t: int|
                            0 <= t < j && doomed@.take(j as int)[t] == rec.id;
                        assert(doomed@.take(j + 1)[t] == rec.id);
                        assert(false);
                    }
                    assert(rec.id != doomed@[j as int]) by {
                        if rec.id == doomed@[j as int] {
                            assert(doomed@.take(j + 1)[j as int] == rec.id);
                        }
                    }
                    assert(before.sessions@.contains(rec));
                }
                assert forall|t: int| 0 <= t < j + 1 implies !has_session(
                    *self,
                    #[trigger] doomed@[t],
                ) by {
                    if t < j {
                        if has_session(*self, doomed@[t]) {
                            let q = choose|q: int|
                                0 <= q < self.sessions@.len() && self.sessions@[q].id
                                    == doomed@[t];
                            assert(self.sessions@.contains(self.sessions@[q]));
                            assert(before.sessions@.contains(self.sessions@[q]));
                            assert(has_session(before, doomed@[t]));
                        }
                    }
                }
            }
            dels.append(&mut d);
            j += 1;
        }
        proof {
            assert(doomed@.take(m as int) =~= doomed@);
            assert forall|rec: SessionRec|
                self.sessions@.contains(rec) implies pre.sessions@.contains(rec) && !expired(
                rec,
                now,
                timeout,
            ) by {
                assert(self.sessions@.contains(rec));
                assert(pre.sessions@.contains(rec));
                if expired(rec, now, timeout) {
                    let i0 = choose|i0: int|
                        0 <= i0 < pre.sessions@.len() && pre.sessions@[i0] == rec;
                    assert(pre.sessions@[i0].id == rec.id && expired(
                        pre.sessions@[i0],
                        now,
                        timeout,
                    ));
                    lemma_expired_ids_membership(pre.sessions@, now, timeout, rec.id);
                    assert(doomed@.contains(rec.id));
                    let t = choose|t: int| 0 <= t < doomed@.len() && doomed@[t] == rec.id;
                    assert(!has_session(*self, rec.id));
                    let q = choose|q: int|
                        0 <= q < self.sessions@.len() && self.sessions@[q] == rec;
                    assert(has_session(*self, rec.id));
                }
            }
            assert forall|rec: SessionRec|
                pre.sessions@.contains(rec) && !expired(rec, now, timeout) implies self.sessions@.contains(
                rec,
            ) by {
                if doomed@.contains(rec.id) {
                    lemma_expired_ids_membership(pre.sessions@, now, timeout, rec.id);
                    let k2 = choose|k2: int|
                        0 <= k2 < pre.sessions@.len() && pre.sessions@[k2].id == rec.id && expired(
                            pre.sessions@[k2],
                            now,
                            timeout,
                        );
                    let i0 = choose|i0: int|
                        0 <= i0 < pre.sessions@.len() && pre.sessions@[i0] == rec;
                    assert(k2 == i0);
                    assert(false);
                }
            }
        }
        (doomed, dels)
    }
}

/// When no session carries the id, no member list holds it, so
/// removing it from every member list changes nothing.
proof fn lemma_rooms_without_session(pre: Registry, id: u64)
    requires
        pre.wf(),
        !has_session(pre, id),
    ensures
        forall|r: int|
            0 <= r < pre.rooms@.len() ==> remove_id((#[trigger] pre.rooms@[r]).members@, id)
                == pre.rooms@[r].members@,
{
    assert forall|r: int|
        0 <= r < pre.rooms@.len() implies remove_id((#[trigger] pre.rooms@[r]).members@, id)
        == pre.rooms@[r].members@ by {
        assert forall|m: int|
            0 <= m < pre.rooms@[r].members@.len() implies pre.rooms@[r].members@[m] != id by {
            assert(session_in_room(pre.sessions@, pre.rooms@[r].members@[m], pre.rooms@[r].name@));
        }
        assert(!pre.rooms@[r].members@.contains(id)) by {
            if pre.rooms@[r].members@.contains(id) {
                let m = choose|m: int|
                    0 <= m < pre.rooms@[r].members@.len() && pre.rooms@[r].members@[m] == id;
            }
        }
        lemma_remove_id_absent(pre.rooms@[r].members@, id);
    }
}

/// A room other than the one the session sits in cannot list the
/// session's id.
proof fn lemma_room_of_member(pre: Registry, r2: int, id: u64, k: int)
    requires
        pre.wf(),
        0 <= r2 < pre.rooms@.len(),
        0 <= k < pre.sessions@.len(),
        pre.sessions@[k].id == id,
        pre.rooms@[r2].name@ != pre.sessions@[k].room@,
    ensures
        !pre.rooms@[r2].members@.contains(id),
{
    if pre.rooms@[r2].members@.contains(id) {
        let m = choose|m: int|
            0 <= m < pre.rooms@[r2].members@.len() && pre.rooms@[r2].members@[m] == id;
        assert(session_in_room(pre.sessions@, id, pre.rooms@[r2].name@));
        let j = choose|j: int|
            0 <= j < pre.sessions@.len() && pre.sessions@[j].id == id && pre.sessions@[j].room@
                == pre.rooms@[r2].name@;
        assert(j == k);
        assert(false);
    }
}

/// After removing index `k`, the session sequence holds exactly the
/// other records.
proof fn lemma_disconnect_session_shape(pre: Registry, post: Registry, id: u64, k: int)
    requires
        pre.wf(),
        0 <= k < pre.sessions@.len(),
        pre.sessions@[k].id == id,
        post.sessions@ == pre.sessions@.remove(k),
    ensures
        forall|rec: SessionRec| post.sessions@.contains(rec) ==> pre.sessions@.contains(rec),
        forall|rec: SessionRec|
            pre.sessions@.contains(rec) && rec.id != id ==> post.sessions@.contains(rec),
        forall|a: int, b: int|
            0 <= a < b < post.sessions@.len() ==> post.sessions@[a].id != post.sessions@[b].id,
        forall|j: int|
            0 <= j < post.sessions@.len() ==> (#[trigger] post.sessions@[j].id) < pre.next_id,
{
    assert forall|rec: SessionRec| post.sessions@.contains(rec) implies pre.sessions@.contains(
        rec,
    ) by {
        let i = choose|i: int| 0 <= i < post.sessions@.len() && post.sessions@[i] == rec;
        if i < k {
            assert(pre.sessions@[i] == rec);
        } else {
            assert(pre.sessions@[i + 1] == rec);
        }
    }
    assert forall|rec: SessionRec|
        pre.sessions@.contains(rec) && rec.id != id implies post.sessions@.contains(rec) by {
        let i = choose|i: int| 0 <= i < pre.sessions@.len() && pre.sessions@[i] == rec;
        assert(i != k);
        if i < k {
            assert(post.sessions@[i] == rec);
        } else {
            assert(post.sessions@[i - 1] == rec);
        }
    }
    assert forall|a: int, b: int|
        0 <= a < b < post.sessions@.len() implies post.sessions@[a].id != post.sessions@[b].id by {
        let a0: int = if a < k {
            a
        } else {
            a + 1
        };
        let b0: int = if b < k {
            b
        } else {
            b + 1
        };
        assert(post.sessions@[a] == pre.sessions@[a0]);
        assert(post.sessions@[b] == pre.sessions@[b0]);
    }
    assert forall|j: int| 0 <= j < post.sessions@.len() implies (#[trigger] post.sessions@[j].id)
        < pre.next_id by {
        if j < k {
            assert(post.sessions@[j] == pre.sessions@[j]);
        } else {
            assert(post.sessions@[j] == pre.sessions@[j + 1]);
        }
    }
}

/// After a disconnect, every remaining session is still listed in its
/// room's member list.
proof fn lemma_disconnect_both_maps(pre: Registry, post: Registry, id: u64, k: int)
    requires
        pre.wf(),
        0 <= k < pre.sessions@.len(),
        pre.sessions@[k].id == id,
        post.sessions@ == pre.sessions@.remove(k),
        post.rooms@.len() == pre.rooms@.len(),
        forall|r: int|
            0 <= r < pre.rooms@.len() ==> (#[trigger] post.rooms@[r]).name@ == pre.rooms@[r].name@
                && post.rooms@[r].members@ == remove_id(pre.rooms@[r].members@, id),
    ensures
        forall|j: int|
            0 <= j < post.sessions@.len() ==> listed_in_rooms(
                post.rooms@,
                #[trigger] post.sessions@[j],
            ),
{
    assert forall|j: int|
        0 <= j < post.sessions@.len() implies listed_in_rooms(
        post.rooms@,
        #[trigger] post.sessions@[j],
    ) by {
        let j0: int = if j < k {
            j
        } else {
            j + 1
        };
        assert(post.sessions@[j] == pre.sessions@[j0]);
        let sid = pre.sessions@[j0].id;
        assert(j0 != k);
        assert(sid != id);
        let r0 = choose|r0: int|
            0 <= r0 < pre.rooms@.len() && pre.rooms@[r0].name@ == pre.sessions@[j0].room@
                && pre.rooms@[r0].members@.contains(sid);
        lemma_remove_id_membership(pre.rooms@[r0].members@, id, sid);
        assert(post.rooms@[r0].members@.contains(sid));
        assert(post.rooms@[r0].name@ == pre.rooms@[r0].name@);
    }
}

/// A found index at which earlier entries miss the name pins down the
/// first entry.
pub proof fn lemma_first_room_entry_found(rooms: Seq<RoomEntry>, name: Seq<char>, r: int)
    requires
        0 <= r < rooms.len(),
        rooms[r].name@ == name,
        forall|j: int| 0 <= j < r ==> (#[trigger] rooms[j]).name@ != name,
    ensures
        first_room_entry(rooms, name) == Some(rooms[r]),
    decreases rooms.len(),
{
    assert forall|n: int| 0 <= n <= r implies first_room_entry(rooms.take(n), name) is None by {
        lemma_first_room_entry_none_prefix(rooms, name, n, r);
    }
    assert(rooms.take(r + 1).drop_last() =~= rooms.take(r));
    assert(rooms.take(r + 1).last() == rooms[r]);
    lemma_first_room_entry_extend(rooms, name, r + 1);
}

/// No entry in a prefix carries the name, so the scan of that prefix
/// yields none.
proof fn lemma_first_room_entry_none_prefix(rooms: Seq<RoomEntry>, name: Seq<char>, n: int, r: int)
    requires
        0 <= n <= r <= rooms.len(),
        forall|j: int| 0 <= j < r ==> (#[trigger] rooms[j]).name@ != name,
    ensures
        first_room_entry(rooms.take(n), name) is None,
    decreases n,
{
    if n == 0 {
        assert(rooms.take(0) =~= Seq::<RoomEntry>::empty());
    } else {
        lemma_first_room_entry_none_prefix(rooms, name, n - 1, r);
        assert(rooms.take(n).drop_last() =~= rooms.take(n - 1));
        assert(rooms.take(n).last() == rooms[n - 1]);
    }
}

/// The member list with one id removed, order otherwise kept.
fn remove_member_vec(v: &Vec<u64>, id: u64) -> (r: Vec<u64>)
    ensures
        r@ == remove_id(v@, id),
{
    let n = v.len();
    let mut r: Vec<u64> = Vec::new();
    let mut i: usize = 0;
    while i < n
        invariant
            n == v@.len(),
            0 <= i <= n,
            r@ =~= remove_id(v@.take(i as int), id),
        decreases n - i,
    {
        proof {
            assert(v@.take(i + 1).drop_last() =~= v@.take(i as int));
            assert(v@.take(i + 1).last() == v@[i as int]);
        }
        if v[i] != id {
            r.push(v[i]);
        }
        i += 1;
    }
    proof {
        assert(v@.take(n as int) =~= v@);
    }
    r
}

/// Removing an id that is not there changes nothing.
pub proof fn lemma_remove_id_absent(s: Seq<u64>, id: u64)
    requires
        !s.contains(id),
    ensures
        remove_id(s, id) == s,
    decreases s.len(),
{
    if s.len() == 0 {
        assert(remove_id(s, id) =~= s);
    } else {
        let prefix = s.drop_last();
        assert(!prefix.contains(id)) by {
            if prefix.contains(id) {
                let k = choose|k: int| 0 <= k < prefix.len() && prefix[k] == id;
                assert(s[k] == id);
            }
        }
        lemma_remove_id_absent(prefix, id);
        assert(s[s.len() - 1] != id) by {
            if s.last() == id {
                assert(s.contains(s.last()));
            }
        }
        assert(remove_id(s, id) =~= s);
    }
}

/// Broadcast reaches each member exactly once: under a well-formed
/// registry, a member of the room finds the text at exactly one
/// position of the delivery list, and that position is the member's
/// registration position.
pub proof fn lemma_broadcast_exactly_once(
    reg: Registry,
    room: Seq<char>,
    member: u64,
    dels: Seq<Delivery>,
    text: Seq<char>,
)
    requires
        reg.wf(),
        members_of(reg.rooms@, room).contains(member),
        dels.len() == members_of(reg.rooms@, room).len(),
        forall|i: int|
            0 <= i < dels.len() ==> (#[trigger] dels[i]).to == members_of(reg.rooms@, room)[i]
                && dels[i].body@ == text,
    ensures
        exists|i: int| 0 <= i < dels.len() && (#[trigger] dels[i]).to == member,
        forall|i: int, j: int|
            0 <= i < dels.len() && 0 <= j < dels.len() && (#[trigger] dels[i]).to == member && (
            #[trigger] dels[j]).to == member ==> i == j,
        forall|i: int| 0 <= i < dels.len() && (#[trigger] dels[i]).to == member ==> dels[i].body@
            == text,
{
    let ms = members_of(reg.rooms@, room);
    lemma_first_room_entry_characterizes(reg.rooms@, room);
    assert(first_room_entry(reg.rooms@, room) is Some);
    let e = first_room_entry(reg.rooms@, room)->0;
    let r = choose|r: int| 0 <= r < reg.rooms@.len() && reg.rooms@[r] == e;
    let i0 = choose|i0: int| 0 <= i0 < ms.len() && ms[i0] == member;
    assert(dels[i0].to == member);
    assert forall|i: int, j: int|
        0 <= i < dels.len() && 0 <= j < dels.len() && (#[trigger] dels[i]).to == member && (
        #[trigger] dels[j]).to == member implies i == j by {
        assert(reg.rooms@[r].members@ == ms);
        if i < j {
            assert(reg.rooms@[r].members@[i] != reg.rooms@[r].members@[j]);
        }
        if j < i {
            assert(reg.rooms@[r].members@[j] != reg.rooms@[r].members@[i]);
        }
    }
}

/// Broadcast order is stable: two broadcasts taken from the same
/// registry snapshot target the same members in the same order, so
/// every member of the room observes the texts in the order sent.
pub proof fn lemma_broadcast_order_stable(
    reg: Registry,
    room: Seq<char>,
    dels1: Seq<Delivery>,
    text1: Seq<char>,
    dels2: Seq<Delivery>,
    text2: Seq<char>,
)
    requires
        dels1.len() == members_of(reg.rooms@, room).len(),
        forall|i: int|
            0 <= i < dels1.len() ==> (#[trigger] dels1[i]).to == members_of(reg.rooms@, room)[i]
                && dels1[i].body@ == text1,
        dels2.len() == members_of(reg.rooms@, room).len(),
        forall|i: int|
            0 <= i < dels2.len() ==> (#[trigger] dels2[i]).to == members_of(reg.rooms@, room)[i]
                && dels2[i].body@ == text2,
    ensures
        dels1.len() == dels2.len(),
        forall|i: int| 0 <= i < dels1.len() ==> (#[trigger] dels1[i]).to == dels2[i].to,
{
}

/// Disconnecting twice is harmless: after one disconnect of an id,
/// a second one changes nothing and notifies nobody — no error and
/// no double notice, whether the second comes from an explicit close
/// or from the liveness sweep.
pub proof fn lemma_disconnect_twice(
    r0: Registry,
    r1: Registry,
    r2: Registry,
    id: u64,
    dels1: Seq<Delivery>,
    dels2: Seq<Delivery>,
)
    requires
        disconnect_post(r0, r1, id, dels1),
        disconnect_post(r1, r2, id, dels2),
    ensures
        r2 == r1,
        dels2.len() == 0,
{
}

/// One notice per member, in member order.
fn notify_members(members: &Vec<u64>, body: &str) -> (dels: Vec<Delivery>)
    ensures
        dels@.len() == members@.len(),
        forall|i: int|
            0 <= i < dels@.len() ==> (#[trigger] dels@[i]).to == members@[i] && dels@[i].body@
                == body@,
{
    let n = members.len();
    let mut dels: Vec<Delivery> = Vec::new();
    let mut i: usize = 0;
    while i < n
        invariant
            n == members@.len(),
            0 <= i <= n,
            dels@.len() == i,
            forall|k: int|
                0 <= k < i ==> (#[trigger] dels@[k]).to == members@[k] && dels@[k].body@ == body@,
        decreases n - i,
    {
        dels.push(Delivery { to: members[i], body: body.to_owned() });
        i += 1;
    }
    dels
}

} // verus!
