//! Responses: the typed return signals the broker sends back to components.

use vstd::prelude::*;

use crate::discrim::Discriminator;
use crate::event::EventSerde;

verus! {

/// The error taxonomy, surfaced as typed response values.
#[derive(Clone, Copy, PartialEq, Eq, Structural, Debug)]
pub enum ResponseError {
    /// a request's target is not a direct child
    ComponentNotFound,
    /// pool key missing
    EntryNotFound,
    /// a child process could not be started
    SpawnFailed,
}

/// What a successful request yields.
pub enum ResponseSuccess {
    SubscribeAdded,
    SubscribeRemoved,
    ListenerSet { discrim: Discriminator },
    Dropped,
    Rendered,
    Spawned { discrim: Discriminator },
    MessageDelivered,
    SpaceCreated { discrim: Discriminator },
    FocusChanged,
    Value { value: Vec<u8> },
    ValueSet,
    RemovedValue,
    Watching,
    Unwatched,
    Suppressed { id: u32 },
    Unsuppressed,
}

/// The content of a response.
#[allow(inconsistent_fields)]
pub enum ResponseContent {
    /// the request succeeded
    Success { content: ResponseSuccess },
    /// the request failed
    Error { content: ResponseError },
    /// the target exists but the filters rejected the delivery
    Undelivered,
    /// an event delivered to the component
    Event { content: EventSerde },
    /// the component's client socket path was recorded
    SetSocket(Vec<u8>),
}

/// A return signal back to a component. Each response carries a fresh id the
/// component confirms receipt with, and, when it answers a request, that
/// request's id.
pub struct Response {
    /// the content of the response
    pub content: ResponseContent,
    /// confirm receipt to the broker with this id
    pub id: u32,
    /// the id of the request this answers, if any
    pub request: Option<u32>,
}

impl Response {
    /// A response that answers no particular request. Response ids are
    /// allocated by the caller, monotonically.
    pub fn new(content: ResponseContent, id: u32) -> (r: Response)
        ensures
            r.content == content,
            r.id == id,
            r.request is None,
    {
        Response { content, id, request: None }
    }

    /// A response answering request `request`.
    pub fn new_with_request(content: ResponseContent, id: u32, request: u32) -> (r: Response)
        ensures
            r.content == content,
            r.id == id,
            r.request == Some(request),
    {
        Response { content, id, request: Some(request) }
    }

    /// The id of this response.
    pub fn id(&self) -> (r: u32)
        ensures
            r == self.id,
    {
        self.id
    }

    /// The content of this response.
    pub fn content(&self) -> (r: &ResponseContent)
        ensures
            r == &self.content,
    {
        &self.content
    }
}

/// The next fresh response id: ids are handed out monotonically by the
/// processor, which owns the counter.
pub fn next_resp_id(counter: &mut u32) -> (r: u32)
    requires
        *old(counter) < u32::MAX,
    ensures
        r == *old(counter) + 1,
        *final(counter) == *old(counter) + 1,
{
    *counter = *counter + 1;
    *counter
}

} // verus!
