//! The hub's view of tokio's unbounded mpsc channel: the type declarations
//! and the two calls the hub makes. A connection's outbound stream is such a
//! channel; the hub holds the sending half, the transport layer drains the
//! receiving half. Everything about the channel itself is taken on trust
//! from tokio; whether a send is accepted depends on whether the receiving
//! half is still open, which is state outside the hub, so nothing is
//! promised of a send's outcome.

use vstd::prelude::*;
use crate::messages::Message;

verus! {

/// tokio's sending half of an unbounded mpsc channel, opaque here.
#[verifier::external_type_specification]
#[verifier::external_body]
#[verifier::reject_recursive_types(T)]
pub struct ExUnboundedSender<T>(tokio::sync::mpsc::UnboundedSender<T>);

/// tokio's receiving half of an unbounded mpsc channel, opaque here.
#[verifier::external_type_specification]
#[verifier::external_body]
#[verifier::reject_recursive_types(T)]
pub struct ExUnboundedReceiver<T>(tokio::sync::mpsc::UnboundedReceiver<T>);

/// Relies on tokio::sync::mpsc::unbounded_channel: returns the two halves of
/// a fresh unbounded channel; what the sender enqueues, the receiver yields
/// in the same order.
#[verifier::external_body]
pub(crate) fn new_channel() -> (r: (
    tokio::sync::mpsc::UnboundedSender<Message>,
    tokio::sync::mpsc::UnboundedReceiver<Message>,
))
{
    tokio::sync::mpsc::unbounded_channel()
}

/// Relies on tokio::sync::mpsc::UnboundedSender::send: enqueues the message
/// without blocking and returns Ok, unless the receiving half has been
/// closed or dropped, in which case nothing is enqueued and Err comes back.
/// The other half's state is not visible here, so the result is unconstrained.
#[verifier::external_body]
pub(crate) fn send_message(
    tx: &tokio::sync::mpsc::UnboundedSender<Message>,
    m: Message,
) -> (ok: bool)
{
    tx.send(m).is_ok()
}

} // verus!
