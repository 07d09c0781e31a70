//! Domain records: users, rooms, conversations, and the denormalized
//! room view returned to readers.

use vstd::prelude::*;

verus! {

/// A registered user of the chat service.
#[derive(Debug, PartialEq)]
pub struct User {
    pub id: String,
    pub username: String,
    pub phone: String,
    pub created_at: String,
}

/// A named channel of communication with a persisted, ordered
/// participant list and a rolling last-message preview.
#[derive(Debug, PartialEq)]
pub struct Room {
    pub id: String,
    pub name: String,
    pub last_message: String,
    pub participant_ids: Vec<String>,
    pub created_at: String,
}

/// One persisted message, append-only.
#[derive(Debug, PartialEq)]
pub struct Conversation {
    pub id: String,
    pub user_id: String,
    pub room_id: String,
    pub content: String,
    pub created_at: String,
}

/// The fields a caller supplies when persisting a new message.
#[derive(Debug, PartialEq)]
pub struct NewConversation {
    pub user_id: String,
    pub room_id: String,
    pub message: String,
}

/// A read-time view joining a room to its participant user records,
/// in participant order. Never persisted.
#[derive(Debug, PartialEq)]
pub struct RoomResponse {
    pub room: Room,
    pub users: Vec<User>,
}

/// A room referenced a user id that storage does not hold: a
/// data-corruption fault, surfaced loudly rather than swallowed.
#[derive(Debug, PartialEq)]
pub enum DomainError {
    ReferentialIntegrityViolation { room_id: String, user_id: String },
}

/// Two rooms hold the same data; rooms are compared field by field
/// because the participant list is compared as a sequence.
pub open spec fn room_like(a: Room, b: Room) -> bool {
    &&& a.id == b.id
    &&& a.name == b.name
    &&& a.last_message == b.last_message
    &&& a.participant_ids@ == b.participant_ids@
    &&& a.created_at == b.created_at
}

impl Clone for User {
    fn clone(&self) -> (res: User)
        ensures
            res == *self,
    {
        let res = User {
            id: self.id.clone(),
            username: self.username.clone(),
            phone: self.phone.clone(),
            created_at: self.created_at.clone(),
        };
        res
    }
}

impl Clone for Conversation {
    fn clone(&self) -> (res: Conversation)
        ensures
            res == *self,
    {
        Conversation {
            id: self.id.clone(),
            user_id: self.user_id.clone(),
            room_id: self.room_id.clone(),
            content: self.content.clone(),
            created_at: self.created_at.clone(),
        }
    }
}

impl Clone for Room {
    fn clone(&self) -> (res: Room)
        ensures
            room_like(res, *self),
    {
        let pids = self.participant_ids.clone();
        proof {
            assert(pids@ =~= self.participant_ids@);
        }
        Room {
            id: self.id.clone(),
            name: self.name.clone(),
            last_message: self.last_message.clone(),
            participant_ids: pids,
            created_at: self.created_at.clone(),
        }
    }
}

} // verus!
