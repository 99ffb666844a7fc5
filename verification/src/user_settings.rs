//! The messages that the owner of the user settings sends to its worker.

use vstd::prelude::*;

verus! {

/// What is sent to the worker: something to work on, or the word to stop.
#[derive(Debug)]
pub enum InternalCommunication<T> {
    Message(T),
    Shutdown,
}

impl<T> InternalCommunication<T> {
    /// What the worker is to work on; nothing where it is told to stop.
    pub fn into_message(self) -> (message: Option<T>)
        ensures
            message == match self {
                InternalCommunication::Message(m) => Some(m),
                InternalCommunication::Shutdown => None,
            },
    {
        match self {
            InternalCommunication::Message(m) => Some(m),
            InternalCommunication::Shutdown => None,
        }
    }
}

} // verus!
