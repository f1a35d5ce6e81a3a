//! The value types of the hub: positions, identified positions, and the
//! messages a connection's outbound stream carries.

use vstd::prelude::*;

verus! {

/// A position on the plane, as reported by a client.
#[derive(Clone, Copy, Debug, PartialEq, Eq, Structural)]
pub struct Location {
    pub x: u32,
    pub y: u32,
}

/// One client's identity together with a position of it.
#[derive(Clone, Copy, Debug, PartialEq, Eq, Structural)]
pub struct UserLocation {
    pub user_id: usize,
    pub location: Location,
}

/// One message pushed onto a connection's outbound stream.
#[derive(Clone, Debug, PartialEq, Eq)]
pub enum Message {
    /// The identity the hub assigned to the receiving connection; always the
    /// first message a new connection's stream yields.
    UserId(usize),
    /// A peer's (or the receiver's own) reported position.
    Location(UserLocation),
    /// The identities just evicted because their streams were gone.
    Kickout(Vec<usize>),
}

/// The mathematical value of a `Message`: the eviction payload becomes a
/// sequence of integers, the other variants carry their fields unchanged.
#[verifier::ext_equal]
pub enum MessageModel {
    UserId(int),
    Location(UserLocation),
    Kickout(Seq<int>),
}

impl View for Message {
    type V = MessageModel;

    open spec fn view(&self) -> MessageModel {
        match self {
            Message::UserId(id) => MessageModel::UserId(*id as int),
            Message::Location(ul) => MessageModel::Location(*ul),
            Message::Kickout(ids) => MessageModel::Kickout(ids@.map_values(|u: usize| u as int)),
        }
    }
}

} // verus!
