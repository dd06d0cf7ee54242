//! The producer side of a connection's outbound queue.
//!
//! The queue itself is tokio's unbounded channel: it never blocks a producer
//! and hands messages to its single consumer in the order they were accepted.

use vstd::prelude::*;
use tokio::sync::mpsc::error::SendError;
use tokio::sync::mpsc::{UnboundedReceiver, UnboundedSender};

verus! {

/// tokio's `mpsc::UnboundedSender`, the sending half of an unbounded channel.
/// It is carried around as an opaque value.
#[verifier::external_type_specification]
#[verifier::external_body]
#[verifier::reject_recursive_types(T)]
pub struct ExUnboundedSender<T>(UnboundedSender<T>);

/// tokio's `mpsc::UnboundedReceiver`, the receiving half of an unbounded
/// channel. It is carried around as an opaque value.
#[verifier::external_type_specification]
#[verifier::external_body]
#[verifier::reject_recursive_types(T)]
pub struct ExUnboundedReceiver<T>(UnboundedReceiver<T>);

/// tokio's `mpsc::error::SendError`, the error of a send on a closed
/// channel. It is carried around as an opaque value.
#[verifier::external_type_specification]
#[verifier::external_body]
#[verifier::reject_recursive_types(T)]
pub struct ExSendError<T>(SendError<T>);

/// Calls `tokio::sync::mpsc::unbounded_channel`. Nothing is claimed of the
/// two halves it returns.
#[verifier::external_body]
fn open_channel() -> (halves: (UnboundedSender<String>, UnboundedReceiver<String>)) {
    tokio::sync::mpsc::unbounded_channel()
}

/// Calls `UnboundedSender::send`. Whether the message is accepted depends on
/// whether the receiving half is still open, so nothing is claimed of the
/// result.
#[verifier::external_body]
fn offer(tx: &UnboundedSender<String>, text: String) -> (sent: Result<(), SendError<String>>) {
    tx.send(text)
}

/// Whether a send put its message on the queue: it did unless the channel
/// answered with its error.
pub fn was_accepted(sent: &Result<(), SendError<String>>) -> (accepted: bool)
    ensures
        accepted == (sent is Ok),
{
    match sent {
        Ok(_) => true,
        Err(_) => false,
    }
}

/// Producer handle of one connection's outbound queue.
pub struct QueueHandle {
    tx: UnboundedSender<String>,
}

impl QueueHandle {
    /// The sending half that the handle wraps: every enqueue on the handle
    /// is a send on it.
    pub closed spec fn sender(&self) -> UnboundedSender<String> {
        self.tx
    }

    /// Wraps the sending half of an existing channel.
    pub fn new(tx: UnboundedSender<String>) -> (handle: Self)
        ensures
            handle.sender() == tx,
    {
        QueueHandle { tx }
    }

    /// Opens a fresh queue and returns its producer handle together with the
    /// receiving half, which belongs to the connection's pump.
    pub fn open() -> (pair: (Self, UnboundedReceiver<String>)) {
        let (tx, rx) = open_channel();
        (QueueHandle { tx }, rx)
    }

    /// Puts a copy of `text` on the queue without blocking. Returns whether
    /// the queue accepted it; a queue whose consumer is gone drops the
    /// message, which is reported as `false` and is no error.
    pub fn enqueue(&self, text: &str) -> (accepted: bool) {
        let sent = offer(&self.tx, text.to_owned());
        was_accepted(&sent)
    }
}

} // verus!
