//! Room-membership aggregation: reconstructs the denormalized
//! room-with-participants view from the normalized tables, and
//! provisions pairwise rooms between a user and every peer.
//!
//! The key algorithmic choice: one batched user lookup serves every
//! returned room, and the contracts here show that this single batch
//! loses nothing against a lookup in the full user table.

use vstd::prelude::*;

use crate::domain::{DomainError, Room, RoomResponse, User};
use crate::domain::room_like;
use crate::external::{fresh_uuid, iso_date};
use crate::store::{
    first_user_with_id, has_user_id, lemma_first_user_with_id_characterizes,
    lemma_first_user_with_id_extend, Store,
};

verus! {

/// An id occurs in a sequence of ids.
pub open spec fn id_in(ids: Seq<Seq<char>>, id: Seq<char>) -> bool {
    exists|k: int| 0 <= k < ids.len() && ids[k] == id
}

/// The participant ids of a room, as character sequences.
pub open spec fn pids_of(r: Room) -> Seq<Seq<char>> {
    r.participant_ids.deep_view()
}

/// The user is listed among the room's participants.
pub open spec fn room_has_member(r: Room, uid: Seq<char>) -> bool {
    id_in(pids_of(r), uid)
}

/// The rooms that list the user, in storage order.
pub open spec fn rooms_with_member(rooms: Seq<Room>, uid: Seq<char>) -> Seq<Room>
    decreases rooms.len(),
{
    if rooms.len() == 0 {
        Seq::empty()
    } else {
        let prefix = rooms_with_member(rooms.drop_last(), uid);
        if room_has_member(rooms.last(), uid) {
            prefix.push(rooms.last())
        } else {
            prefix
        }
    }
}

/// The users whose id occurs among `ids`, in storage order: the
/// result of the one batched lookup.
pub open spec fn users_with_ids(users: Seq<User>, ids: Seq<Seq<char>>) -> Seq<User>
    decreases users.len(),
{
    if users.len() == 0 {
        Seq::empty()
    } else {
        let prefix = users_with_ids(users.drop_last(), ids);
        if id_in(ids, users.last().id@) {
            prefix.push(users.last())
        } else {
            prefix
        }
    }
}

/// Every user other than the one given, in storage order.
pub open spec fn peers_of(users: Seq<User>, uid: Seq<char>) -> Seq<User>
    decreases users.len(),
{
    if users.len() == 0 {
        Seq::empty()
    } else {
        let prefix = peers_of(users.drop_last(), uid);
        if users.last().id@ != uid {
            prefix.push(users.last())
        } else {
            prefix
        }
    }
}

/// Every participant id of every listed room resolves to a user.
pub open spec fn complete_for(rooms: Seq<Room>, users: Seq<User>) -> bool {
    forall|i: int, j: int|
        0 <= i < rooms.len() && 0 <= j < pids_of(#[trigger] rooms[i]).len() ==> has_user_id(
            users,
            #[trigger] pids_of(rooms[i])[j],
        )
}

/// The view of one room: its users are exactly the records the table
/// holds for its participant ids, in participant order.
pub open spec fn room_response_for(resp: RoomResponse, room: Room, users: Seq<User>) -> bool {
    &&& room_like(resp.room, room)
    &&& resp.users@.len() == pids_of(room).len()
    &&& forall|j: int|
        0 <= j < pids_of(room).len() ==> first_user_with_id(users, #[trigger] pids_of(room)[j])
            == Some(resp.users@[j])
}

/// One response per listed room, in room order.
pub open spec fn responses_for(resps: Seq<RoomResponse>, rooms: Seq<Room>, users: Seq<User>) -> bool {
    &&& resps.len() == rooms.len()
    &&& forall|i: int|
        0 <= i < rooms.len() ==> room_response_for(#[trigger] resps[i], rooms[i], users)
}

/// A participant id of some listed room has no user record, and the
/// error names that room and that id.
pub open spec fn integrity_violation_for(e: DomainError, rooms: Seq<Room>, users: Seq<User>) -> bool {
    exists|i: int, j: int|
        {
            &&& 0 <= i < rooms.len()
            &&& 0 <= j < pids_of(#[trigger] rooms[i]).len()
            &&& !has_user_id(users, #[trigger] pids_of(rooms[i])[j])
            &&& e matches DomainError::ReferentialIntegrityViolation { room_id, user_id }
                && room_id@ == rooms[i].id@ && user_id@ == pids_of(rooms[i])[j]
        }
}

/// What a membership-filtered aggregation returns: views of exactly
/// the rooms listing the user, resolved against the full user table;
/// an integrity fault names a missing reference.
pub open spec fn rooms_for_user_post(
    rooms: Seq<Room>,
    users: Seq<User>,
    uid: Seq<char>,
    r: Result<Vec<RoomResponse>, DomainError>,
) -> bool {
    &&& (r is Ok ==> responses_for(r->Ok_0@, rooms_with_member(rooms, uid), users))
    &&& (r is Ok <==> complete_for(rooms_with_member(rooms, uid), users))
    &&& (r is Err ==> integrity_violation_for(r->Err_0, rooms_with_member(rooms, uid), users))
}

/// The greeting preview a freshly provisioned room starts with.
pub open spec fn greeting() -> Seq<char> {
    "Let's start the conversation"@
}

/// Returns the greeting preview as an owned string.
pub fn greeting_text() -> (r: String)
    ensures
        r@ == greeting(),
{
    "Let's start the conversation".to_owned()
}

/// A room provisioned for `uid` against one peer: named after the
/// peer, greeting preview, participants = requester then peer.
pub open spec fn provisioned_room(r: Room, uid: Seq<char>, peer: User) -> bool {
    &&& r.name == peer.username
    &&& r.last_message@ == greeting()
    &&& pids_of(r) == seq![uid, peer.id@]
    &&& r.id@.len() == 36
}

/// One provisioning pass: the prior rooms stay untouched and one new
/// room per peer is appended, in peer order.
pub open spec fn provision_step(pre: Seq<Room>, post: Seq<Room>, users: Seq<User>, uid: Seq<char>) -> bool {
    &&& post.len() == pre.len() + peers_of(users, uid).len()
    &&& post.subrange(0, pre.len() as int) == pre
    &&& forall|k: int|
        0 <= k < peers_of(users, uid).len() ==> provisioned_room(
            #[trigger] post[pre.len() + k],
            uid,
            peers_of(users, uid)[k],
        )
}

/// Whether an id occurs in a vector of ids.
fn ids_contain(ids: &Vec<String>, x: &String) -> (r: bool)
    ensures
        r == id_in(ids.deep_view(), x@),
{
    let n = ids.len();
    let mut i: usize = 0;
    while i < n
        invariant
            n == ids@.len(),
            0 <= i <= n,
            forall|k: int| 0 <= k < i ==> ids.deep_view()[k] != x@,
        decreases n - i,
    {
        if ids[i] == *x {
            assert(ids.deep_view()[i as int] == x@);
            return true;
        }
        i += 1;
    }
    false
}

/// Linear scan of a user table for an id.
fn scan_user(users: &Vec<User>, uid: &String) -> (r: Option<User>)
    ensures
        r == first_user_with_id(users@, uid@),
{
    let n = users.len();
    let mut i: usize = 0;
    while i < n
        invariant
            n == users@.len(),
            0 <= i <= n,
            first_user_with_id(users@.take(i as int), uid@) is None,
        decreases n - i,
    {
        proof {
            assert(users@.take(i + 1).drop_last() =~= users@.take(i as int));
            assert(users@.take(i + 1).last() == users@[i as int]);
        }
        if users[i].id == *uid {
            let found = users[i].clone();
            proof {
                lemma_first_user_with_id_extend(users@, uid@, i + 1);
            }
            return Some(found);
        }
        i += 1;
    }
    proof {
        assert(users@.take(n as int) =~= users@);
    }
    None
}

/// The deduplicated union of the participant ids of the given rooms;
/// the contract states coverage, which is what callers rest on.
fn union_participant_ids(rooms: &Vec<Room>) -> (r: Vec<String>)
    ensures
        forall|i: int, j: int|
            0 <= i < rooms@.len() && 0 <= j < pids_of(#[trigger] rooms@[i]).len() ==> id_in(
                r.deep_view(),
                #[trigger] pids_of(rooms@[i])[j],
            ),
{
    let nr = rooms.len();
    let mut r: Vec<String> = Vec::new();
    let mut i: usize = 0;
    while i < nr
        invariant
            nr == rooms@.len(),
            0 <= i <= nr,
            forall|i2: int, j2: int|
                0 <= i2 < i && 0 <= j2 < pids_of(#[trigger] rooms@[i2]).len() ==> id_in(
                    r.deep_view(),
                    #[trigger] pids_of(rooms@[i2])[j2],
                ),
        decreases nr - i,
    {
        let np = rooms[i].participant_ids.len();
        let mut j: usize = 0;
        while j < np
            invariant
                nr == rooms@.len(),
                0 <= i < nr,
                np == pids_of(rooms@[i as int]).len(),
                0 <= j <= np,
                forall|i2: int, j2: int|
                    0 <= i2 < i && 0 <= j2 < pids_of(#[trigger] rooms@[i2]).len() ==> id_in(
                        r.deep_view(),
                        #[trigger] pids_of(rooms@[i2])[j2],
                    ),
                forall|j2: int|
                    0 <= j2 < j ==> id_in(r.deep_view(), #[trigger] pids_of(rooms@[i as int])[j2]),
            decreases np - j,
        {
            let pid = &rooms[i].participant_ids[j];
            if !ids_contain(&r, pid) {
                let ghost pre = r.deep_view();
                r.push(pid.clone());
                proof {
                    assert(r.deep_view() =~= pre.push(pid@));
                    assert forall|id: Seq<char>| id_in(pre, id) implies id_in(
                        r.deep_view(),
                        id,
                    ) by {
                        let k = choose|k: int| 0 <= k < pre.len() && pre[k] == id;
                        assert(r.deep_view()[k] == id);
                    }
                    assert(r.deep_view()[pre.len() as int] == pid@);
                }
            }
            proof {
                assert(pids_of(rooms@[i as int])[j as int] == pid@);
            }
            j += 1;
        }
        i += 1;
    }
    r
}

/// The one batched lookup: every user whose id occurs among `ids`,
/// in storage order.
pub fn batch_users_by_ids(users: &Vec<User>, ids: &Vec<String>) -> (r: Vec<User>)
    ensures
        r@ == users_with_ids(users@, ids.deep_view()),
{
    let n = users.len();
    let mut r: Vec<User> = Vec::new();
    let mut i: usize = 0;
    while i < n
        invariant
            n == users@.len(),
            0 <= i <= n,
            r@ =~= users_with_ids(users@.take(i as int), ids.deep_view()),
        decreases n - i,
    {
        proof {
            assert(users@.take(i + 1).drop_last() =~= users@.take(i as int));
            assert(users@.take(i + 1).last() == users@[i as int]);
        }
        if ids_contain(ids, &users[i].id) {
            r.push(users[i].clone());
        }
        i += 1;
    }
    proof {
        assert(users@.take(n as int) =~= users@);
    }
    r
}

/// One deduplicated batch suffices: looking an id up in the batched
/// subset returns exactly what a lookup in the full table returns,
/// whenever the batch's id set covers that id.
pub proof fn lemma_single_batch_suffices(users: Seq<User>, ids: Seq<Seq<char>>, uid: Seq<char>)
    requires
        id_in(ids, uid),
    ensures
        first_user_with_id(users_with_ids(users, ids), uid) == first_user_with_id(users, uid),
    decreases users.len(),
{
    if users.len() == 0 {
    } else {
        let prefix = users.drop_last();
        lemma_single_batch_suffices(prefix, ids, uid);
        if id_in(ids, users.last().id@) {
            let f = users_with_ids(prefix, ids).push(users.last());
            assert(users_with_ids(users, ids) == f);
            assert(f.drop_last() =~= users_with_ids(prefix, ids));
            assert(f.last() == users.last());
        } else {
            assert(users.last().id@ != uid);
        }
    }
}

/// Builds one response per given room by resolving each participant
/// id against the given user table; fails loudly on the first
/// unresolved reference.
pub fn build_room_responses(rooms: &Vec<Room>, users: &Vec<User>) -> (r: Result<
    Vec<RoomResponse>,
    DomainError,
>)
    ensures
        r is Ok ==> responses_for(r->Ok_0@, rooms@, users@),
        r is Ok <==> complete_for(rooms@, users@),
        r is Err ==> integrity_violation_for(r->Err_0, rooms@, users@),
{
    let nr = rooms.len();
    let mut out: Vec<RoomResponse> = Vec::new();
    let mut i: usize = 0;
    while i < nr
        invariant
            nr == rooms@.len(),
            0 <= i <= nr,
            out@.len() == i,
            forall|i2: int|
                0 <= i2 < i ==> room_response_for(#[trigger] out@[i2], rooms@[i2], users@),
        decreases nr - i,
    {
        let room = &rooms[i];
        let np = room.participant_ids.len();
        let mut members: Vec<User> = Vec::new();
        let mut j: usize = 0;
        while j < np
            invariant
                nr == rooms@.len(),
                0 <= i < nr,
                room == &rooms[i as int],
                np == pids_of(rooms@[i as int]).len(),
                0 <= j <= np,
                members@.len() == j,
                forall|j2: int|
                    0 <= j2 < j ==> first_user_with_id(
                        users@,
                        #[trigger] pids_of(rooms@[i as int])[j2],
                    ) == Some(members@[j2]),
            decreases np - j,
        {
            let pid = &room.participant_ids[j];
            proof {
                assert(pids_of(rooms@[i as int])[j as int] == pid@);
            }
            match scan_user(users, pid) {
                Some(u) => {
                    members.push(u);
                },
                None => {
                    proof {
                        lemma_first_user_with_id_characterizes(users@, pid@);
                    }
                    return Err(
                        DomainError::ReferentialIntegrityViolation {
                            room_id: room.id.clone(),
                            user_id: pid.clone(),
                        },
                    );
                },
            }
            j += 1;
        }
        out.push(RoomResponse { room: room.clone(), users: members });
        i += 1;
    }
    proof {
        assert forall|i2: int, j2: int|
            0 <= i2 < rooms@.len() && 0 <= j2 < pids_of(#[trigger] rooms@[i2]).len() implies has_user_id(
            users@,
            #[trigger] pids_of(rooms@[i2])[j2],
        ) by {
            assert(first_user_with_id(users@, pids_of(rooms@[i2])[j2]) == Some(
                out@[i2].users@[j2],
            ));
            lemma_first_user_with_id_characterizes(users@, pids_of(rooms@[i2])[j2]);
        }
    }
    Ok(out)
}

/// Sequences of rooms that hold the same data, position by position.
pub open spec fn rooms_like(a: Seq<Room>, b: Seq<Room>) -> bool {
    &&& a.len() == b.len()
    &&& forall|i: int| 0 <= i < a.len() ==> room_like(#[trigger] a[i], b[i])
}

/// What the unfiltered aggregation returns: one resolved view per
/// stored room.
pub open spec fn all_rooms_post(
    rooms: Seq<Room>,
    users: Seq<User>,
    r: Result<Vec<RoomResponse>, DomainError>,
) -> bool {
    &&& (r is Ok ==> responses_for(r->Ok_0@, rooms, users))
    &&& (r is Ok <==> complete_for(rooms, users))
    &&& (r is Err ==> integrity_violation_for(r->Err_0, rooms, users))
}

/// Carries the aggregation result over from the batched lookup to the
/// full user table, and from cloned rooms to the stored ones.
proof fn lemma_aggregate_transfer(
    keptv: Seq<Room>,
    speck: Seq<Room>,
    unionids: Seq<Seq<char>>,
    users: Seq<User>,
    batch: Seq<User>,
    r: Result<Vec<RoomResponse>, DomainError>,
)
    requires
        rooms_like(keptv, speck),
        batch == users_with_ids(users, unionids),
        forall|i: int, j: int|
            0 <= i < keptv.len() && 0 <= j < pids_of(#[trigger] keptv[i]).len() ==> id_in(
                unionids,
                #[trigger] pids_of(keptv[i])[j],
            ),
        r is Ok ==> responses_for(r->Ok_0@, keptv, batch),
        r is Ok <==> complete_for(keptv, batch),
        r is Err ==> integrity_violation_for(r->Err_0, keptv, batch),
    ensures
        r is Ok ==> responses_for(r->Ok_0@, speck, users),
        r is Ok <==> complete_for(speck, users),
        r is Err ==> integrity_violation_for(r->Err_0, speck, users),
{
    assert forall|i: int| 0 <= i < keptv.len() implies pids_of(#[trigger] keptv[i]) == pids_of(
        speck[i],
    ) by {
        assert(keptv[i].participant_ids@ == speck[i].participant_ids@);
        assert(pids_of(keptv[i]) =~= pids_of(speck[i]));
    }
    assert forall|i: int, j: int|
        0 <= i < keptv.len() && 0 <= j < pids_of(#[trigger] keptv[i]).len() implies {
        &&& first_user_with_id(batch, #[trigger] pids_of(keptv[i])[j]) == first_user_with_id(
            users,
            pids_of(keptv[i])[j],
        )
        &&& (has_user_id(batch, pids_of(keptv[i])[j]) <==> has_user_id(
            users,
            pids_of(keptv[i])[j],
        ))
    } by {
        let pid = pids_of(keptv[i])[j];
        lemma_single_batch_suffices(users, unionids, pid);
        lemma_first_user_with_id_characterizes(batch, pid);
        lemma_first_user_with_id_characterizes(users, pid);
    }
    if r is Ok {
        let resps = r->Ok_0@;
        assert forall|i: int| 0 <= i < speck.len() implies room_response_for(
            #[trigger] resps[i],
            speck[i],
            users,
        ) by {
            assert(room_response_for(resps[i], keptv[i], batch));
        }
        assert forall|i: int, j: int|
            0 <= i < speck.len() && 0 <= j < pids_of(#[trigger] speck[i]).len() implies has_user_id(
            users,
            #[trigger] pids_of(speck[i])[j],
        ) by {
            assert(pids_of(keptv[i]) == pids_of(speck[i]));
            assert(has_user_id(batch, pids_of(keptv[i])[j]));
            assert(has_user_id(users, pids_of(keptv[i])[j]));
        }
        assert(complete_for(speck, users));
    }
    if complete_for(speck, users) && !(r is Ok) {
        let e = r->Err_0;
        let (i, j) = choose|i: int, j: int|
            {
                &&& 0 <= i < keptv.len()
                &&& 0 <= j < pids_of(#[trigger] keptv[i]).len()
                &&& !has_user_id(batch, #[trigger] pids_of(keptv[i])[j])
                &&& e matches DomainError::ReferentialIntegrityViolation { room_id, user_id }
                    && room_id@ == keptv[i].id@ && user_id@ == pids_of(keptv[i])[j]
            };
        assert(has_user_id(users, pids_of(speck[i])[j]));
        assert(false);
    }
    if r is Err {
        let e = r->Err_0;
        let (i, j) = choose|i: int, j: int|
            {
                &&& 0 <= i < keptv.len()
                &&& 0 <= j < pids_of(#[trigger] keptv[i]).len()
                &&& !has_user_id(batch, #[trigger] pids_of(keptv[i])[j])
                &&& e matches DomainError::ReferentialIntegrityViolation { room_id, user_id }
                    && room_id@ == keptv[i].id@ && user_id@ == pids_of(keptv[i])[j]
            };
        assert(!has_user_id(users, pids_of(speck[i])[j]));
        assert(speck[i].id@ == keptv[i].id@);
        assert(integrity_violation_for(e, speck, users));
    }
}

impl Store {
    /// The denormalized views of the rooms that list the given user,
    /// built with a single batched user lookup.
    pub fn get_rooms_by_uid(&self, uid: &String) -> (r: Result<Vec<RoomResponse>, DomainError>)
        ensures
            rooms_for_user_post(self.rooms@, self.users@, uid@, r),
    {
        let nr = self.rooms.len();
        let mut kept: Vec<Room> = Vec::new();
        let mut i: usize = 0;
        while i < nr
            invariant
                nr == self.rooms@.len(),
                0 <= i <= nr,
                rooms_like(kept@, rooms_with_member(self.rooms@.take(i as int), uid@)),
            decreases nr - i,
        {
            proof {
                assert(self.rooms@.take(i + 1).drop_last() =~= self.rooms@.take(i as int));
                assert(self.rooms@.take(i + 1).last() == self.rooms@[i as int]);
            }
            if ids_contain(&self.rooms[i].participant_ids, uid) {
                kept.push(self.rooms[i].clone());
            }
            i += 1;
        }
        proof {
            assert(self.rooms@.take(nr as int) =~= self.rooms@);
        }
        let union = union_participant_ids(&kept);
        let batch = batch_users_by_ids(&self.users, &union);
        let built = build_room_responses(&kept, &batch);
        proof {
            lemma_aggregate_transfer(
                kept@,
                rooms_with_member(self.rooms@, uid@),
                union.deep_view(),
                self.users@,
                batch@,
                built,
            );
        }
        built
    }

    /// The denormalized views of every stored room, built with a
    /// single batched user lookup.
    pub fn get_all_rooms(&self) -> (r: Result<Vec<RoomResponse>, DomainError>)
        ensures
            all_rooms_post(self.rooms@, self.users@, r),
    {
        let nr = self.rooms.len();
        let mut kept: Vec<Room> = Vec::new();
        let mut i: usize = 0;
        while i < nr
            invariant
                nr == self.rooms@.len(),
                0 <= i <= nr,
                rooms_like(kept@, self.rooms@.take(i as int)),
            decreases nr - i,
        {
            kept.push(self.rooms[i].clone());
            proof {
                assert(self.rooms@.take(i + 1).drop_last() =~= self.rooms@.take(i as int));
            }
            i += 1;
        }
        proof {
            assert(self.rooms@.take(nr as int) =~= self.rooms@);
        }
        let union = union_participant_ids(&kept);
        let batch = batch_users_by_ids(&self.users, &union);
        let built = build_room_responses(&kept, &batch);
        proof {
            lemma_aggregate_transfer(
                kept@,
                self.rooms@,
                union.deep_view(),
                self.users@,
                batch@,
                built,
            );
        }
        built
    }

    /// Provisions one fresh pairwise room between the given user and
    /// every other stored user, then returns that user's room views.
    /// Deliberately not idempotent: a second call appends another
    /// room per peer.
    pub fn insert_list_room(&mut self, uid: &String) -> (r: Result<Vec<RoomResponse>, DomainError>)
        ensures
            final(self).users == old(self).users,
            final(self).conversations == old(self).conversations,
            provision_step(old(self).rooms@, final(self).rooms@, old(self).users@, uid@),
            rooms_for_user_post(final(self).rooms@, final(self).users@, uid@, r),
    {
        let snapshot = self.get_all_users();
        let n = snapshot.len();
        let ghost pre = self.rooms@;
        let mut k: usize = 0;
        while k < n
            invariant
                n == snapshot@.len(),
                0 <= k <= n,
                snapshot@ == old(self).users@,
                self.users == old(self).users,
                self.conversations == old(self).conversations,
                pre == old(self).rooms@,
                self.rooms@.len() == pre.len() + peers_of(snapshot@.take(k as int), uid@).len(),
                self.rooms@.subrange(0, pre.len() as int) == pre,
                forall|t: int|
                    0 <= t < peers_of(snapshot@.take(k as int), uid@).len() ==> provisioned_room(
                        #[trigger] self.rooms@[pre.len() + t],
                        uid@,
                        peers_of(snapshot@.take(k as int), uid@)[t],
                    ),
            decreases n - k,
        {
            proof {
                assert(snapshot@.take(k + 1).drop_last() =~= snapshot@.take(k as int));
                assert(snapshot@.take(k + 1).last() == snapshot@[k as int]);
            }
            if !(snapshot[k].id == *uid) {
                let mut pids: Vec<String> = Vec::new();
                pids.push(uid.clone());
                pids.push(snapshot[k].id.clone());
                let room = Room {
                    id: fresh_uuid(),
                    name: snapshot[k].username.clone(),
                    last_message: greeting_text(),
                    participant_ids: pids,
                    created_at: iso_date(),
                };
                proof {
                    assert(pids_of(room) =~= seq![uid@, snapshot@[k as int].id@]);
                }
                let ghost prev_rooms = self.rooms@;
                self.rooms.push(room);
                proof {
                    assert(self.rooms@.subrange(0, pre.len() as int) =~= prev_rooms.subrange(
                        0,
                        pre.len() as int,
                    ));
                }
            }
            k += 1;
        }
        proof {
            assert(snapshot@.take(n as int) =~= snapshot@);
        }
        self.get_rooms_by_uid(uid)
    }
}

/// One participant, one row: when a room's participant list holds no
/// duplicate ids, the user at position `j` of the participant list
/// appears in the response's user list exactly there and nowhere else.
pub proof fn lemma_participant_listed_once(
    resp: RoomResponse,
    room: Room,
    users: Seq<User>,
    uid: Seq<char>,
    j: int,
)
    requires
        room_response_for(resp, room, users),
        forall|a: int, b: int|
            0 <= a < b < pids_of(room).len() ==> pids_of(room)[a] != pids_of(room)[b],
        0 <= j < pids_of(room).len(),
        pids_of(room)[j] == uid,
    ensures
        resp.users@[j].id@ == uid,
        forall|k: int| 0 <= k < resp.users@.len() && k != j ==> resp.users@[k].id@ != uid,
{
    assert forall|k: int| 0 <= k < resp.users@.len() implies resp.users@[k].id@ == pids_of(room)[k] by {
        assert(first_user_with_id(users, pids_of(room)[k]) == Some(resp.users@[k]));
        lemma_first_user_with_id_characterizes(users, pids_of(room)[k]);
    }
    assert forall|k: int| 0 <= k < resp.users@.len() && k != j implies resp.users@[k].id@ != uid by {
        if k < j {
            assert(pids_of(room)[k] != pids_of(room)[j]);
        } else {
            assert(pids_of(room)[j] != pids_of(room)[k]);
        }
    }
}

/// Filtering by membership distributes over concatenation.
pub proof fn lemma_rooms_with_member_concat(a: Seq<Room>, b: Seq<Room>, uid: Seq<char>)
    ensures
        rooms_with_member(a + b, uid) == rooms_with_member(a, uid) + rooms_with_member(b, uid),
    decreases b.len(),
{
    if b.len() == 0 {
        assert(a + b =~= a);
        assert(rooms_with_member(b, uid) =~= Seq::<Room>::empty());
        assert(rooms_with_member(a, uid) + rooms_with_member(b, uid) =~= rooms_with_member(
            a,
            uid,
        ));
    } else {
        lemma_rooms_with_member_concat(a, b.drop_last(), uid);
        assert((a + b).drop_last() =~= a + b.drop_last());
        assert((a + b).last() == b.last());
        if room_has_member(b.last(), uid) {
            assert(rooms_with_member(a, uid) + rooms_with_member(b, uid) =~= (rooms_with_member(
                a,
                uid,
            ) + rooms_with_member(b.drop_last(), uid)).push(b.last()));
        }
    }
}

/// A sequence of rooms that all list the user filters to itself.
pub proof fn lemma_all_member_rooms(s: Seq<Room>, uid: Seq<char>)
    requires
        forall|k: int| 0 <= k < s.len() ==> room_has_member(#[trigger] s[k], uid),
    ensures
        rooms_with_member(s, uid) == s,
    decreases s.len(),
{
    if s.len() == 0 {
        assert(rooms_with_member(s, uid) =~= s);
    } else {
        lemma_all_member_rooms(s.drop_last(), uid);
        assert(rooms_with_member(s, uid) =~= s);
    }
}

/// One provisioning pass grows the user's room count by exactly the
/// number of peers.
pub proof fn lemma_provision_adds_peer_rooms(
    pre: Seq<Room>,
    post: Seq<Room>,
    users: Seq<User>,
    uid: Seq<char>,
)
    requires
        provision_step(pre, post, users, uid),
    ensures
        rooms_with_member(post, uid).len() == rooms_with_member(pre, uid).len() + peers_of(
            users,
            uid,
        ).len(),
{
    let appended = post.subrange(pre.len() as int, post.len() as int);
    assert(post =~= pre + appended);
    assert forall|k: int| 0 <= k < appended.len() implies room_has_member(
        #[trigger] appended[k],
        uid,
    ) by {
        assert(provisioned_room(post[pre.len() + k], uid, peers_of(users, uid)[k]));
        assert(pids_of(appended[k])[0] == uid);
    }
    lemma_rooms_with_member_concat(pre, appended, uid);
    lemma_all_member_rooms(appended, uid);
}

/// Provisioning is not idempotent: two passes for the same user over
/// an unchanged user table yield twice the peer count in new rooms
/// listing that user.
pub proof fn lemma_provision_twice(
    r0: Seq<Room>,
    r1: Seq<Room>,
    r2: Seq<Room>,
    users: Seq<User>,
    uid: Seq<char>,
)
    requires
        provision_step(r0, r1, users, uid),
        provision_step(r1, r2, users, uid),
    ensures
        rooms_with_member(r2, uid).len() == rooms_with_member(r0, uid).len() + 2 * peers_of(
            users,
            uid,
        ).len(),
{
    lemma_provision_adds_peer_rooms(r0, r1, users, uid);
    lemma_provision_adds_peer_rooms(r1, r2, users, uid);
}

} // verus!
