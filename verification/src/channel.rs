//! The `crossbeam_channel` receiving end that messages arrive on.
use vstd::prelude::*;
use crossbeam_channel::{Receiver, RecvError};

verus! {

/// `crossbeam_channel::Receiver`; opaque to Verus.
#[verifier::external_type_specification]
#[verifier::external_body]
#[verifier::reject_recursive_types(T)]
pub struct ExReceiver<T>(Receiver<T>);

/// `crossbeam_channel::RecvError`: the channel is empty and disconnected.
#[verifier::external_type_specification]
#[verifier::external_body]
pub struct ExRecvError(RecvError);

/// `Receiver::recv`: blocks until a message arrives (returned) or the channel is empty and
/// disconnected (error). Which of the two, and which message, depends on the senders, so
/// nothing is stated of the result.
#[verifier::external_body]
pub(crate) fn receive<T>(rx: &Receiver<T>) -> (r: Result<T, RecvError>) {
    rx.recv()
}

/// `Receiver::len`: how many messages wait in the channel at this moment; it depends on
/// the senders, so nothing is stated of it.
#[verifier::external_body]
pub(crate) fn waiting<T>(rx: &Receiver<T>) -> (r: usize) {
    rx.len()
}

} // verus!
