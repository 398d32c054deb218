//! Small identifier types used by the matchmaking service.

use vstd::prelude::*;

verus! {

/// A room's numeric identifier.
#[derive(Clone, Copy, PartialEq, Eq, Structural, PartialOrd, Ord, Hash, Debug)]
pub struct RoomId(pub u16);

/// A game server's numeric identifier.
#[derive(Clone, Copy, PartialEq, Eq, Structural, PartialOrd, Ord, Hash, Debug)]
pub struct GameserverID(pub u16);

} // verus!
