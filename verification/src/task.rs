//! The channel pair connecting the reactor and the acquisition task.
//!
//! The two halves are created together: the worker-facing half sends
//! data and receives commands; the server-facing handle receives data
//! and sends commands.  The channels themselves are the standard
//! library's; their endpoints are opaque here, and all blocking sends
//! and receives happen in the application layer.

use vstd::prelude::*;

verus! {

/// Relies on `std::sync::mpsc::Sender`: one endpoint type, declared so
/// it can stand in fields.
#[verifier::external_type_specification]
#[verifier::external_body]
#[verifier::reject_recursive_types(T)]
pub struct ExSender<T>(std::sync::mpsc::Sender<T>);

/// Relies on `std::sync::mpsc::Receiver`: the other endpoint type.
#[verifier::external_type_specification]
#[verifier::external_body]
#[verifier::reject_recursive_types(T)]
pub struct ExReceiver<T>(std::sync::mpsc::Receiver<T>);

/// Relies on `std::sync::mpsc::channel`: creates a connected
/// sender/receiver pair.  Nothing further can be promised of the
/// opaque endpoints.
pub assume_specification<T>[ std::sync::mpsc::channel::<T> ]() -> (r: (
    std::sync::mpsc::Sender<T>,
    std::sync::mpsc::Receiver<T>,
));

/// The server-facing half: receive data, send commands.
#[verifier::reject_recursive_types(T)]
#[verifier::reject_recursive_types(C)]
pub struct TaskHandle<T, C> {
    /// Where the worker's data arrives.
    pub data_receiver: std::sync::mpsc::Receiver<T>,
    /// Where commands for the worker go.
    pub command_sender: std::sync::mpsc::Sender<C>,
}

/// The worker-facing half: send data, receive commands.
#[verifier::reject_recursive_types(T)]
#[verifier::reject_recursive_types(C)]
pub struct Task<T, C> {
    /// Where the worker's data goes.
    pub data_sender: std::sync::mpsc::Sender<T>,
    /// Where commands for the worker arrive.
    pub command_receiver: std::sync::mpsc::Receiver<C>,
}

/// Create the two connected halves of a task's channel pair.
pub fn init_task<T, C>() -> (Task<T, C>, TaskHandle<T, C>) {
    let (data_sender, data_receiver) = std::sync::mpsc::channel();
    let (command_sender, command_receiver) = std::sync::mpsc::channel();

    let task = Task { data_sender, command_receiver };
    let task_handle = TaskHandle { data_receiver, command_sender };

    (task, task_handle)
}

} // verus!
