//! In-memory persistence adapter: three append-only tables of users,
//! rooms and conversations, with the lookups the aggregator needs.

use vstd::prelude::*;

use crate::domain::{Conversation, NewConversation, Room, RoomResponse, User};
use crate::domain::room_like;
use crate::external::{fresh_uuid, iso_date, uuid_char};

verus! {

/// The first user record carrying the given id, scanning in storage
/// order, or none.
pub open spec fn first_user_with_id(users: Seq<User>, uid: Seq<char>) -> Option<User>
    decreases users.len(),
{
    if users.len() == 0 {
        None
    } else {
        let prefix = first_user_with_id(users.drop_last(), uid);
        if prefix is Some {
            prefix
        } else if users.last().id@ == uid {
            Some(users.last())
        } else {
            None
        }
    }
}

/// The first user record carrying the given phone number, or none.
pub open spec fn first_user_with_phone(users: Seq<User>, ph: Seq<char>) -> Option<User>
    decreases users.len(),
{
    if users.len() == 0 {
        None
    } else {
        let prefix = first_user_with_phone(users.drop_last(), ph);
        if prefix is Some {
            prefix
        } else if users.last().phone@ == ph {
            Some(users.last())
        } else {
            None
        }
    }
}

/// Some user record carries the given id.
pub open spec fn has_user_id(users: Seq<User>, uid: Seq<char>) -> bool {
    exists|k: int| 0 <= k < users.len() && users[k].id@ == uid
}

/// The conversations of one room, in storage order.
pub open spec fn conversations_in_room(convs: Seq<Conversation>, rid: Seq<char>) -> Seq<
    Conversation,
>
    decreases convs.len(),
{
    if convs.len() == 0 {
        Seq::empty()
    } else {
        let prefix = conversations_in_room(convs.drop_last(), rid);
        if convs.last().room_id@ == rid {
            prefix.push(convs.last())
        } else {
            prefix
        }
    }
}

/// A match found in a prefix is the match for the whole table.
pub proof fn lemma_first_user_with_id_extend(users: Seq<User>, uid: Seq<char>, n: int)
    requires
        0 <= n <= users.len(),
        first_user_with_id(users.take(n), uid) is Some,
    ensures
        first_user_with_id(users, uid) == first_user_with_id(users.take(n), uid),
    decreases users.len(),
{
    if n == users.len() {
        assert(users.take(n) =~= users);
    } else {
        let prefix = users.drop_last();
        assert(prefix.take(n) =~= users.take(n));
        lemma_first_user_with_id_extend(prefix, uid, n);
    }
}

/// Same, for the phone lookup.
pub proof fn lemma_first_user_with_phone_extend(users: Seq<User>, ph: Seq<char>, n: int)
    requires
        0 <= n <= users.len(),
        first_user_with_phone(users.take(n), ph) is Some,
    ensures
        first_user_with_phone(users, ph) == first_user_with_phone(users.take(n), ph),
    decreases users.len(),
{
    if n == users.len() {
        assert(users.take(n) =~= users);
    } else {
        let prefix = users.drop_last();
        assert(prefix.take(n) =~= users.take(n));
        lemma_first_user_with_phone_extend(prefix, ph, n);
    }
}

/// The scan finds a record exactly when one with that id is there,
/// and what it finds carries that id.
pub proof fn lemma_first_user_with_id_characterizes(users: Seq<User>, uid: Seq<char>)
    ensures
        first_user_with_id(users, uid) is Some <==> has_user_id(users, uid),
        first_user_with_id(users, uid) is Some ==> {
            let u = first_user_with_id(users, uid)->0;
            u.id@ == uid && users.contains(u)
        },
    decreases users.len(),
{
    if users.len() == 0 {
    } else {
        let prefix = users.drop_last();
        lemma_first_user_with_id_characterizes(prefix, uid);
        if first_user_with_id(users, uid) is Some {
            let u = first_user_with_id(users, uid)->0;
            if first_user_with_id(prefix, uid) is Some {
                assert(prefix.contains(u));
                let k = choose|k: int| 0 <= k < prefix.len() && prefix[k] == u;
                assert(users[k] == u);
                assert(users.contains(u));
                let j = choose|j: int| 0 <= j < prefix.len() && prefix[j].id@ == uid;
                assert(users[j].id@ == uid);
            } else {
                assert(users[users.len() - 1].id@ == uid);
                assert(users.contains(users.last()));
            }
        }
        if has_user_id(users, uid) && first_user_with_id(users, uid) is None {
            let k = choose|k: int| 0 <= k < users.len() && users[k].id@ == uid;
            if k < users.len() - 1 {
                assert(prefix[k].id@ == uid);
                assert(has_user_id(prefix, uid));
            }
            assert(false);
        }
    }
}

/// The store: users, rooms and conversations in insertion order.
pub struct Store {
    pub users: Vec<User>,
    pub rooms: Vec<Room>,
    pub conversations: Vec<Conversation>,
}

impl Store {
    /// An empty store.
    pub fn new() -> (s: Store)
        ensures
            s.users@.len() == 0,
            s.rooms@.len() == 0,
            s.conversations@.len() == 0,
    {
        Store { users: Vec::new(), rooms: Vec::new(), conversations: Vec::new() }
    }

    /// Looks a user up by id; none when absent, which is not an error.
    pub fn find_user_by_uid(&self, uid: &String) -> (r: Option<User>)
        ensures
            r == first_user_with_id(self.users@, uid@),
    {
        let n = self.users.len();
        let mut i: usize = 0;
        while i < n
            invariant
                n == self.users@.len(),
                0 <= i <= n,
                first_user_with_id(self.users@.take(i as int), uid@) is None,
            decreases n - i,
        {
            proof {
                assert(self.users@.take(i + 1).drop_last() =~= self.users@.take(i as int));
                assert(self.users@.take(i + 1).last() == self.users@[i as int]);
            }
            if self.users[i].id == *uid {
                let found = self.users[i].clone();
                proof {
                    lemma_first_user_with_id_extend(self.users@, uid@, i + 1);
                }
                return Some(found);
            }
            i += 1;
        }
        proof {
            assert(self.users@.take(n as int) =~= self.users@);
        }
        None
    }

    /// Looks a user up by phone number; none when absent.
    pub fn find_user_by_phone(&self, user_phone: &String) -> (r: Option<User>)
        ensures
            r == first_user_with_phone(self.users@, user_phone@),
    {
        let n = self.users.len();
        let mut i: usize = 0;
        while i < n
            invariant
                n == self.users@.len(),
                0 <= i <= n,
                first_user_with_phone(self.users@.take(i as int), user_phone@) is None,
            decreases n - i,
        {
            proof {
                assert(self.users@.take(i + 1).drop_last() =~= self.users@.take(i as int));
                assert(self.users@.take(i + 1).last() == self.users@[i as int]);
            }
            if self.users[i].phone == *user_phone {
                let found = self.users[i].clone();
                proof {
                    lemma_first_user_with_phone_extend(self.users@, user_phone@, i + 1);
                }
                return Some(found);
            }
            i += 1;
        }
        proof {
            assert(self.users@.take(n as int) =~= self.users@);
        }
        None
    }

    /// Every user record, in insertion order.
    pub fn get_all_users(&self) -> (r: Vec<User>)
        ensures
            r@ == self.users@,
    {
        let n = self.users.len();
        let mut r: Vec<User> = Vec::new();
        let mut i: usize = 0;
        while i < n
            invariant
                n == self.users@.len(),
                0 <= i <= n,
                r@ =~= self.users@.take(i as int),
            decreases n - i,
        {
            r.push(self.users[i].clone());
            proof {
                assert(r@ =~= self.users@.take(i + 1));
            }
            i += 1;
        }
        proof {
            assert(self.users@.take(n as int) =~= self.users@);
        }
        r
    }

    /// The conversations of one room. An unknown room id yields the
    /// empty sequence, indistinguishable from a room with no messages.
    pub fn get_conversation_by_room_id(&self, rid: &String) -> (r: Vec<Conversation>)
        ensures
            r@ == conversations_in_room(self.conversations@, rid@),
    {
        let n = self.conversations.len();
        let mut r: Vec<Conversation> = Vec::new();
        let mut i: usize = 0;
        while i < n
            invariant
                n == self.conversations@.len(),
                0 <= i <= n,
                r@ =~= conversations_in_room(self.conversations@.take(i as int), rid@),
            decreases n - i,
        {
            proof {
                assert(self.conversations@.take(i + 1).drop_last() =~= self.conversations@.take(
                    i as int,
                ));
                assert(self.conversations@.take(i + 1).last() == self.conversations@[i as int]);
            }
            if self.conversations[i].room_id == *rid {
                r.push(self.conversations[i].clone());
            }
            i += 1;
        }
        proof {
            assert(self.conversations@.take(n as int) =~= self.conversations@);
        }
        r
    }

    /// Creates a user with a fresh id and creation timestamp and
    /// appends it; duplicate phone numbers are not rejected here.
    pub fn insert_new_user(&mut self, nm: &str, pn: &str) -> (u: User)
        ensures
            final(self).users@ == old(self).users@.push(u),
            final(self).rooms == old(self).rooms,
            final(self).conversations == old(self).conversations,
            u.username@ == nm@,
            u.phone@ == pn@,
            u.id@.len() == 36,
            forall|i: int| 0 <= i < u.id@.len() ==> uuid_char(#[trigger] u.id@[i]),
    {
        let u = User {
            id: fresh_uuid(),
            username: nm.to_owned(),
            phone: pn.to_owned(),
            created_at: iso_date(),
        };
        let copy = u.clone();
        self.users.push(copy);
        u
    }

    /// Persists one message with a fresh id and creation timestamp.
    pub fn insert_new_conversation(&mut self, new: NewConversation) -> (c: Conversation)
        ensures
            final(self).conversations@ == old(self).conversations@.push(c),
            final(self).users == old(self).users,
            final(self).rooms == old(self).rooms,
            c.user_id == new.user_id,
            c.room_id == new.room_id,
            c.content == new.message,
            c.id@.len() == 36,
    {
        let c = Conversation {
            id: fresh_uuid(),
            user_id: new.user_id,
            room_id: new.room_id,
            content: new.message,
            created_at: iso_date(),
        };
        let copy = c.clone();
        self.conversations.push(copy);
        c
    }

    /// Replaces the last-message preview of every room whose id
    /// matches and returns the first refreshed room; none when the id
    /// is unknown.
    pub fn update_last_message_in_room(&mut self, rid: &String, lm: &String) -> (r: Option<Room>)
        ensures
            final(self).users == old(self).users,
            final(self).conversations == old(self).conversations,
            final(self).rooms@.len() == old(self).rooms@.len(),
            forall|i: int|
                0 <= i < old(self).rooms@.len() && old(self).rooms@[i].id@ == rid@
                    ==> updated_room(#[trigger] final(self).rooms@[i], old(self).rooms@[i], lm@),
            forall|i: int|
                0 <= i < old(self).rooms@.len() && old(self).rooms@[i].id@ != rid@ ==> room_like(
                    #[trigger] final(self).rooms@[i],
                    old(self).rooms@[i],
                ),
            r is Some <==> exists|i: int|
                0 <= i < old(self).rooms@.len() && #[trigger] old(self).rooms@[i].id@ == rid@,
            r is Some ==> exists|i: int|
                {
                    &&& 0 <= i < old(self).rooms@.len()
                    &&& #[trigger] old(self).rooms@[i].id@ == rid@
                    &&& forall|j: int| 0 <= j < i ==> #[trigger] old(self).rooms@[j].id@ != rid@
                    &&& room_like(r->0, final(self).rooms@[i])
                },
    {
        let n = self.rooms.len();
        let mut out: Vec<Room> = Vec::new();
        let mut found: Option<Room> = None;
        let ghost mut fidx: int = 0;
        let mut i: usize = 0;
        while i < n
            invariant
                n == self.rooms@.len(),
                0 <= i <= n,
                out@.len() == i,
                self.rooms == old(self).rooms,
                self.users == old(self).users,
                self.conversations == old(self).conversations,
                forall|j: int|
                    0 <= j < i && self.rooms@[j].id@ == rid@ ==> updated_room(
                        #[trigger] out@[j],
                        self.rooms@[j],
                        lm@,
                    ),
                forall|j: int|
                    0 <= j < i && self.rooms@[j].id@ != rid@ ==> room_like(
                        #[trigger] out@[j],
                        self.rooms@[j],
                    ),
                found is Some <==> exists|j: int|
                    0 <= j < i && #[trigger] self.rooms@[j].id@ == rid@,
                found is Some ==> {
                    &&& 0 <= fidx < i
                    &&& self.rooms@[fidx].id@ == rid@
                    &&& (forall|j: int| 0 <= j < fidx ==> #[trigger] self.rooms@[j].id@ != rid@)
                    &&& room_like(found->0, out@[fidx])
                },
            decreases n - i,
        {
            let cur = &self.rooms[i];
            if cur.id == *rid {
                let pids = cur.participant_ids.clone();
                proof {
                    assert(pids@ =~= cur.participant_ids@);
                }
                let nr = Room {
                    id: cur.id.clone(),
                    name: cur.name.clone(),
                    last_message: lm.clone(),
                    participant_ids: pids,
                    created_at: cur.created_at.clone(),
                };
                if found.is_none() {
                    found = Some(nr.clone());
                    proof {
                        fidx = i as int;
                    }
                }
                out.push(nr);
            } else {
                out.push(cur.clone());
            }
            i += 1;
        }
        self.rooms = out;
        found
    }
}

/// The room after a preview update: every field kept but the preview.
pub open spec fn updated_room(new: Room, prev: Room, lm: Seq<char>) -> bool {
    &&& new.id == prev.id
    &&& new.name == prev.name
    &&& new.last_message@ == lm
    &&& new.participant_ids@ == prev.participant_ids@
    &&& new.created_at == prev.created_at
}

} // verus!
