use std::sync::mpsc::{Receiver, RecvError, SendError, SyncSender, TryRecvError};

use vstd::prelude::*;

verus! {

/// `std::sync::mpsc::Receiver`, the receiving end of a channel, carried through opaque.
#[verifier::external_type_specification]
#[verifier::external_body]
#[verifier::reject_recursive_types(T)]
pub struct ExReceiver<T>(Receiver<T>);

/// `std::sync::mpsc::SyncSender`, the sending end of a bounded channel, carried through opaque.
#[verifier::external_type_specification]
#[verifier::external_body]
#[verifier::reject_recursive_types(T)]
pub struct ExSyncSender<T>(SyncSender<T>);

/// `std::sync::mpsc::RecvError`: the sending end is gone.
#[verifier::external_type_specification]
#[verifier::external_body]
pub struct ExRecvError(RecvError);

/// `std::sync::mpsc::TryRecvError`: no message waiting, or the sending end is gone.
#[verifier::external_type_specification]
#[verifier::external_body]
pub struct ExTryRecvError(TryRecvError);

/// `std::sync::mpsc::SendError`: the receiving end is gone; it hands the message back.
#[verifier::external_type_specification]
#[verifier::external_body]
#[verifier::reject_recursive_types(T)]
pub struct ExSendError<T>(SendError<T>);

/// `Receiver::recv` waits for a message from the other end; what arrives depends on the
/// other thread, so nothing is stated of it.
pub assume_specification<T>[ Receiver::<T>::recv ](rx: &Receiver<T>) -> Result<T, RecvError>;

/// `Receiver::try_recv` takes a message if one is waiting; what arrives depends on the
/// other thread, so nothing is stated of it.
pub assume_specification<T>[ Receiver::<T>::try_recv ](rx: &Receiver<T>) -> Result<T, TryRecvError>;

/// `SyncSender::send` hands a message to the other end, waiting for room; whether the other
/// end is still there depends on the other thread, so nothing is stated of the result.
pub assume_specification<T>[ SyncSender::<T>::send ](tx: &SyncSender<T>, t: T) -> Result<(), SendError<T>>;

/// Both ends of a two-way channel between two threads.
#[verifier::reject_recursive_types(T)]
pub struct Comms<T> {
    rx: Receiver<T>,
    tx: SyncSender<T>,
}

impl<T> Comms<T> {
    /// The end that messages come in on.
    pub closed spec fn incoming(&self) -> Receiver<T> {
        self.rx
    }

    /// The end that messages go out on.
    pub closed spec fn outgoing(&self) -> SyncSender<T> {
        self.tx
    }

    /// The ends of a two-way channel: messages come in on `rx` and go out on `tx`.
    pub fn new(rx: Receiver<T>, tx: SyncSender<T>) -> (r: Comms<T>)
        ensures
            r.incoming() == rx,
            r.outgoing() == tx,
    {
        Comms { rx, tx }
    }

    /// Waits for the next message.
    pub fn recv(&self) -> Result<T, RecvError> {
        self.rx.recv()
    }

    /// Takes the next message if one is waiting.
    pub fn try_recv(&self) -> Result<T, TryRecvError> {
        self.rx.try_recv()
    }

    /// Sends a message.
    pub fn send(&self, t: T) -> Result<(), SendError<T>> {
        self.tx.send(t)
    }
}

} // verus!
