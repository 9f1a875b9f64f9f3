use std::sync::mpsc::{Receiver, RecvError, SendError, Sender, TryRecvError};
use vstd::prelude::*;

verus! {

/// The sending half of a std channel.
#[verifier::external_type_specification]
#[verifier::external_body]
#[verifier::reject_recursive_types(T)]
pub struct ExSender<T>(Sender<T>);

/// The receiving half of a std channel.
#[verifier::external_type_specification]
#[verifier::external_body]
#[verifier::reject_recursive_types(T)]
pub struct ExReceiver<T>(Receiver<T>);

/// The error of a blocking receive on a channel whose senders are gone.
#[verifier::external_type_specification]
#[verifier::external_body]
pub struct ExRecvError(RecvError);

/// The error of a non-blocking receive: nothing waiting, or the senders are gone.
#[verifier::external_type_specification]
#[verifier::external_body]
pub struct ExTryRecvError(TryRecvError);

/// The error of a send on a channel whose receiver is gone; it hands the message back.
#[verifier::external_type_specification]
#[verifier::external_body]
#[verifier::reject_recursive_types(T)]
pub struct ExSendError<T>(SendError<T>);

/// Relies on `std::sync::mpsc::channel`: a connected sender and receiver.
pub assume_specification<T>[ std::sync::mpsc::channel::<T> ]() -> (Sender<T>, Receiver<T>);

/// Relies on `Receiver::recv`: blocks for the next message; an error once every sender is
/// gone. What arrives depends on other threads, so nothing more is stated.
pub assume_specification<T>[ Receiver::<T>::recv ](r: &Receiver<T>) -> Result<T, RecvError>;

/// Relies on `Receiver::try_recv`: the next message if one is waiting, else an error.
pub assume_specification<T>[ Receiver::<T>::try_recv ](r: &Receiver<T>) -> Result<T, TryRecvError>;

/// Relies on `Sender::send`: queues the message, or hands it back in an error when the
/// receiver is gone.
pub assume_specification<T>[ Sender::<T>::send ](s: &Sender<T>, t: T) -> Result<(), SendError<T>>;

/// Two one-way channels glued into a two-way line: sends `S`, receives `R`.
#[verifier::reject_recursive_types(S)]
#[verifier::reject_recursive_types(R)]
pub struct Phone<S, R> {
    pub sender: Sender<S>,
    pub receiver: Receiver<R>,
}

impl<S, R> Phone<S, R> {
    pub fn new(sender: Sender<S>, receiver: Receiver<R>) -> (r: Phone<S, R>)
        ensures
            r.sender == sender,
            r.receiver == receiver,
    {
        Phone { sender, receiver }
    }

    /// Two phones, each receiving what the other sends.
    pub fn new_pair() -> (r: (Phone<S, R>, Phone<R, S>)) {
        let (s1, r1) = std::sync::mpsc::channel::<S>();
        let (s2, r2) = std::sync::mpsc::channel::<R>();
        (Phone::new(s1, r2), Phone::new(s2, r1))
    }

    /// Blocks for the next message.
    pub fn wait(&mut self) -> (r: Result<R, RecvError>)
        ensures
            *final(self) == *old(self),
    {
        self.receiver.recv()
    }

    /// The next message, if one is waiting.
    pub fn check(&mut self) -> (r: Result<R, TryRecvError>)
        ensures
            *final(self) == *old(self),
    {
        self.receiver.try_recv()
    }

    /// Sends a message to the other phone.
    pub fn send(&mut self, message: S) -> (r: Result<(), SendError<S>>)
        ensures
            *final(self) == *old(self),
    {
        self.sender.send(message)
    }
}

} // verus!
