//! A real-time position-broadcast hub: clients report their own 2D location
//! and receive, as a push stream of messages, the locations of every other
//! connected client. The hub admits connections, assigns identities, fans
//! reported positions out to all current subscribers, and reaps connections
//! whose outbound channel no longer accepts messages.

pub mod channel;
pub mod hub;
pub mod messages;
