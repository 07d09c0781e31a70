//! Core of a room-based chat service: domain model, an in-memory
//! persistence adapter, room-membership aggregation, a session state
//! machine and the registry that routes room broadcasts.

use vstd::prelude::*;

pub mod aggregate;
pub mod domain;
pub mod encoding;
mod external;
pub mod numfmt;
pub mod registry;
pub mod session;
pub mod store;

verus! {

/// The name of the room every fresh session starts in.
pub open spec fn default_room() -> Seq<char> {
    "main"@
}

/// Returns the default room name as an owned string.
pub fn default_room_name() -> (r: String)
    ensures
        r@ == default_room(),
{
    "main".to_owned()
}

} // verus!
