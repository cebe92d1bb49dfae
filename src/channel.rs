use vstd::prelude::*;

use std::sync::mpsc::{Receiver, Sender};

verus! {

#[verifier::external_type_specification]
#[verifier::external_body]
#[verifier::reject_recursive_types(T)]
pub struct ExSender<T>(Sender<T>);

#[verifier::external_type_specification]
#[verifier::external_body]
#[verifier::reject_recursive_types(T)]
pub struct ExReceiver<T>(Receiver<T>);

/// What a background handle reports about its task.
pub enum TaskEvent {
    Update(Vec<u8>),
    Drop,
}

/// A task id with what happened to it.
pub type Event = (u64, TaskEvent);

/// Relies on `std::sync::mpsc::channel`: a new unbounded channel, its
/// sending and its receiving half.
#[verifier::external_body]
pub(crate) fn open_channel() -> (r: (Sender<Event>, Receiver<Event>)) {
    std::sync::mpsc::channel()
}

/// Relies on `Sender::send`, which does not panic: once the receiving half
/// is gone it hands the event back as an error, and nobody is left to read
/// it.
#[verifier::external_body]
pub(crate) fn post(tx: &Sender<Event>, event: Event)
    opens_invariants none
    no_unwind
{
    let _ = tx.send(event);
}

/// Relies on `Receiver::try_recv`: the oldest waiting event, or none when
/// nothing waits; it does not block.
#[verifier::external_body]
pub(crate) fn poll(rx: &Receiver<Event>) -> (r: Option<Event>) {
    rx.try_recv().ok()
}

/// Relies on `Receiver::recv`: blocks until an event arrives; none once
/// every sending half is gone.
#[verifier::external_body]
pub(crate) fn wait(rx: &Receiver<Event>) -> (r: Option<Event>) {
    rx.recv().ok()
}

/// Relies on `Sender::clone`: another sending half of the same channel.
#[verifier::external_body]
pub(crate) fn copy_sender(tx: &Sender<Event>) -> (r: Sender<Event>) {
    tx.clone()
}

} // verus!
