//! Outbound per-client channels.
//!
//! Every connected client session owns the receiving end of a bounded
//! channel; the coordinator holds the sending end and pushes encoded
//! update frames into it. Delivery is best effort: a full or closed
//! channel means the frame is dropped for that client, never an error
//! for the coordinator.

use vstd::prelude::*;
use futures::channel::mpsc::Sender;

verus! {

#[verifier::external_type_specification]
#[verifier::external_body]
#[verifier::reject_recursive_types(T)]
pub struct ExSender<T>(Sender<T>);

/// Relies on futures::channel::mpsc::Sender::try_send: queues the frame
/// on the bounded channel when there is capacity and the receiver is
/// still alive, and returns an error (returning the frame) when the
/// channel is full or disconnected. Nothing is promised of the result:
/// whether a frame is accepted depends on the state of the channel, and
/// the coordinator treats either outcome as acceptable.
#[verifier::external_body]
pub(crate) fn try_send_frame(sender: &mut Sender<String>, frame: String) -> bool {
    sender.try_send(frame).is_ok()
}

} // verus!
