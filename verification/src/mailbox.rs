use crossbeam_channel::{Receiver, Sender, TryIter};
use uuid::Uuid;
use vstd::prelude::*;

verus! {

#[verifier::external_type_specification]
#[verifier::external_body]
#[verifier::reject_recursive_types(T)]
pub struct ExSender<T>(Sender<T>);

#[verifier::external_type_specification]
#[verifier::external_body]
#[verifier::reject_recursive_types(T)]
pub struct ExReceiver<T>(Receiver<T>);

#[verifier::external_type_specification]
#[verifier::external_body]
#[verifier::reject_recursive_types(T)]
pub struct ExTryIter<'a, T>(TryIter<'a, T>);

#[verifier::external_type_specification]
#[verifier::external_body]
pub struct ExUuid(Uuid);

/// Calls `crossbeam_channel::unbounded`, which makes a new unbounded
/// channel and returns its sending and its receiving end. That the two ends
/// belong to one channel, and which messages pass through it, depends on
/// what other code sends later, so the contract states nothing of them.
#[verifier::external_body]
fn unbounded_channel<M>() -> (Sender<M>, Receiver<M>) {
    crossbeam_channel::unbounded::<M>()
}

/// Calls `crossbeam_channel::Receiver::try_iter`, which returns an
/// iterator that yields each message as soon as it is ready and ends when
/// none is, without waiting. Which messages it yields depends on what
/// senders do, so the contract states nothing of them.
#[verifier::external_body]
fn receive_ready<'a, M>(receiver: &'a Receiver<M>) -> TryIter<'a, M> {
    receiver.try_iter()
}

/// The receiving end of an object's message channel.
#[verifier::reject_recursive_types(M)]
pub struct Mailbox<M> {
    receiver: Receiver<M>,
}

impl<M> Mailbox<M> {
    /// Opens a mailbox for the object `id` and returns the sender that
    /// delivers to it, together with the mailbox.
    pub fn new(id: Uuid) -> (Sender<M>, Self) {
        let (sender, receiver) = unbounded_channel::<M>();
        let mailbox = Mailbox { receiver: receiver };
        (sender, mailbox)
    }

    /// Yields, without waiting, the messages that have arrived and not been
    /// drained yet, including those sent while it is being iterated.
    pub fn drain(&self) -> impl Iterator<Item = M> + '_ {
        receive_ready(&self.receiver)
    }
}

} // verus!
