//! How a connecting client is identified: by device and licence when logged
//! in, by a freshly allocated number when a guest.

use vstd::prelude::*;

verus! {

/// A client's identity for the duration of a connection.
#[derive(Clone, Copy, PartialEq, Eq, Structural, PartialOrd, Ord, Hash, Debug)]
pub enum ClientId {
    LoggedIn { device: u32, licence: u16 },
    Guest { id: u32 },
}

impl ClientId {
    /// Builds the identity from an optional login. A logged-in client keeps
    /// its device and licence numbers; a guest is tagged with the caller's
    /// freshly drawn `guest_id` (the caller owns the counter that allocates
    /// them).
    pub fn new(login: Option<(u32, u16)>, guest_id: u32) -> (r: Self)
        ensures
            login matches Some(dl) ==> r == (ClientId::LoggedIn {
                device: dl.0,
                licence: dl.1,
            }),
            login is None ==> r == (ClientId::Guest { id: guest_id }),
    {
        match login {
            Some((device, licence)) => Self::LoggedIn { device, licence },
            None => Self::Guest { id: guest_id },
        }
    }
}

} // verus!
