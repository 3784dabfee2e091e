//! Core of a terminal-application multiplexer: a local message broker that
//! hosts components inside one terminal and arbitrates which component
//! captures each input event, based on priority-weighted subscriptions and
//! suppression.
//!
//! The crate holds the broker's data model and decision logic: the component
//! tree and label registry, subscription passes, suppressors, the per-component
//! key-value pool with watchers, focus tracking, and the handshake and dispatch
//! rules. Socket polling, process spawning and terminal control live outside,
//! in the binary that drives this library.

use vstd::prelude::*;

pub mod assoc;
pub mod broker;
pub mod channel;
pub mod cli;
pub mod discrim;
pub mod dispatch;
pub mod event;
pub mod passes;
pub mod pool;
pub mod processor;
pub mod refs;
pub mod registry;
pub mod request;
pub mod response;
pub mod suppressor;
pub mod util;
pub mod wire;

verus! {

} // verus!
