//! The channels that carry work items to the readers and frames to the
//! writers. They are `crossbeam_channel`'s; nothing here is proved of them.

use crossbeam_channel::{Receiver, Sender, TrySendError};
use vstd::prelude::*;

verus! {

/// The sending side of a `crossbeam_channel` channel. Opaque to the verifier.
#[verifier::external_type_specification]
#[verifier::external_body]
#[verifier::reject_recursive_types(T)]
pub struct ExSender<T>(crossbeam_channel::Sender<T>);

/// The receiving side of a `crossbeam_channel` channel. Opaque to the
/// verifier.
#[verifier::external_type_specification]
#[verifier::external_body]
#[verifier::reject_recursive_types(T)]
pub struct ExReceiver<T>(crossbeam_channel::Receiver<T>);

/// Why a channel did not take a message. Either way the message comes back.
pub enum Refusal<T> {
    /// The channel is bounded and holds as many messages as it can.
    Full(T),
    /// Every receiver of the channel has been dropped.
    Disconnected(T),
}

impl<T> Refusal<T> {
    /// The message that the channel did not take.
    pub open spec fn message(self) -> T {
        match self {
            Refusal::Full(msg) => msg,
            Refusal::Disconnected(msg) => msg,
        }
    }
}

/// `crossbeam_channel::unbounded`: a new channel without a capacity limit.
/// Nothing is claimed of the two ends.
pub assume_specification<T>[ crossbeam_channel::unbounded::<T> ]() -> (ends: (
    Sender<T>,
    Receiver<T>,
));

/// `crossbeam_channel::Sender::try_send`: offers `msg` to the channel without
/// blocking. Whether the channel takes it depends on the other threads, so
/// the contract claims only what the crate documents of a refusal: the error
/// carries the message that was offered.
#[verifier::external_body]
pub(crate) fn offer<T>(lane: &Sender<T>, msg: T) -> (taken: Result<(), Refusal<T>>)
    ensures
        taken matches Err(refusal) ==> refusal.message() == msg,
{
    match lane.try_send(msg) {
        Ok(()) => Ok(()),
        Err(TrySendError::Full(back)) => Err(Refusal::Full(back)),
        Err(TrySendError::Disconnected(back)) => Err(Refusal::Disconnected(back)),
    }
}

} // verus!
