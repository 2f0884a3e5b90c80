//! The crossbeam channel calls that the scheduler makes to hand jobs out.
use crossbeam::channel::{SendError, Sender, TrySendError};
use vstd::prelude::*;

verus! {

#[verifier::external_type_specification]
#[verifier::external_body]
#[verifier::reject_recursive_types(T)]
pub struct ExSender<T>(Sender<T>);

/// What came of offering a message to a channel without blocking.
pub enum Offer<T> {
    /// The channel took the message.
    Taken,
    /// The channel was full; the message is handed back.
    Full(T),
    /// Every receiver is gone; the message is handed back.
    Closed(T),
}

/// Relies on crossbeam's `Sender::try_send`: it never blocks, and where it
/// does not take the message it returns that very message in its error.
#[verifier::external_body]
pub(crate) fn offer<T>(sender: &Sender<T>, msg: T) -> (r: Offer<T>)
    ensures
        r matches Offer::Full(m) ==> m == msg,
        r matches Offer::Closed(m) ==> m == msg,
{
    match sender.try_send(msg) {
        Ok(()) => Offer::Taken,
        Err(TrySendError::Full(m)) => Offer::Full(m),
        Err(TrySendError::Disconnected(m)) => Offer::Closed(m),
    }
}

/// Relies on crossbeam's `Sender::send`: it fails only when every receiver is
/// gone, and then returns that very message in its error.
#[verifier::external_body]
pub(crate) fn deliver<T>(sender: &Sender<T>, msg: T) -> (r: Result<(), T>)
    ensures
        r matches Err(m) ==> m == msg,
{
    match sender.send(msg) {
        Ok(()) => Ok(()),
        Err(SendError(m)) => Err(m),
    }
}

} // verus!
