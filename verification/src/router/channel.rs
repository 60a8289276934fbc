//! What the router knows of the `jackiechan` crate's bounded channel.
//!
//! Neither contract in this file is proved, and neither says what becomes
//! of a message: whether a send goes through depends on how full the
//! channel is and on whether its receiver still lives.

use super::Notification;
use jackiechan::{Receiver, Sender, TrySendError};
use vstd::prelude::*;

verus! {

#[verifier::external_type_specification]
#[verifier::external_body]
#[verifier::reject_recursive_types(T)]
pub struct ExSender<T>(jackiechan::Sender<T>);

#[verifier::external_type_specification]
#[verifier::external_body]
#[verifier::reject_recursive_types(T)]
pub struct ExReceiver<T>(jackiechan::Receiver<T>);

/// `jackiechan::bounded`: the two ends of a new channel that holds up to
/// `capacity` notifications. The function panics on a capacity of zero.
#[verifier::external_body]
pub(crate) fn bounded(capacity: usize) -> (ends: (Sender<Notification>, Receiver<Notification>))
    requires
        capacity > 0,
{
    jackiechan::bounded(capacity)
}

/// `Sender::try_send`: puts the notification into the channel if there is
/// room and the channel is open. Where it does not, the error of either
/// kind hands the notification back as it was given.
#[verifier::external_body]
pub(crate) fn try_send(handle: &Sender<Notification>, notification: Notification) -> (sent: Result<
    (),
    Notification,
>)
    ensures
        sent matches Err(back) ==> back == notification,
{
    match handle.try_send(notification) {
        Ok(()) => Ok(()),
        Err(TrySendError::Full(back)) => Err(back),
        Err(TrySendError::Closed(back)) => Err(back),
    }
}

} // verus!
