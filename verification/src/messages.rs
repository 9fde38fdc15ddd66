//! Message classification and boundary error kinds.

use vstd::prelude::*;

verus! {

/// Classification of an application message carried in an operation body.
#[derive(Clone, Copy, Debug, PartialEq, Eq, Structural)]
pub enum MessageType {
    Application,
}

/// A failure of the one-time channel initialisation handshake.
#[derive(Clone, Copy, Debug, PartialEq, Eq, Structural)]
pub enum InitError {
    /// The receiving side of the initialisation channel is closed.
    OneshotChannelError,
    /// The delivery channel was already bound by an earlier call.
    SetStreamChannelError,
}

impl InitError {
    /// A stable string tag for the boundary.
    pub fn as_str(&self) -> (r: &'static str)
        ensures
            self is OneshotChannelError ==> r@ == "oneshot channel receiver closed"@,
            self is SetStreamChannelError ==> r@ == "stream channel already set"@,
    {
        match self {
            InitError::OneshotChannelError => "oneshot channel receiver closed",
            InitError::SetStreamChannelError => "stream channel already set",
        }
    }
}

/// Optional stream coordinates of a publish request: the stream a new
/// operation should join, or nothing to open a fresh stream.
pub struct StreamArgs {
    pub root_hash: Option<Vec<u8>>,
    pub owner: Option<Vec<u8>>,
}

} // verus!
