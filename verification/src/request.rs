//! Requests: what components ask of the broker, and the re-targeting rules
//! the per-component listener applies before a request enters the dispatch
//! pipeline.

use vstd::prelude::*;

use crate::channel::Subscription;
use crate::discrim::Discriminator;
use crate::response::ResponseContent;
use crate::response::ResponseSuccess;
use crate::util::dup_bytes;

verus! {

/// A state value a component can query.
#[derive(Clone, Copy, PartialEq, Eq, Structural, Debug)]
pub enum StateValue {
    /// the discriminator of the focused component
    Focused,
    /// whether the asking component lies in the focused subtree
    IsFocused,
    /// the terminal size
    TermSize,
    /// the working directory
    WorkingDir,
}

/// A watch request after the listener bound it to its watcher.
pub struct WatchInternal {
    pub label: Vec<u8>,
    pub watcher: Discriminator,
}

/// The kinds of requests.
pub enum RequestContent {
    /// confirm that an event has been received; true passes the event on
    ConfirmRecieve { id: u32, pass: bool },
    /// add a subscription to a channel with a priority
    Subscribe {
        channel: Subscription,
        priority: Option<u32>,
        component: Option<Discriminator>,
    },
    /// remove a subscription from a channel
    Unsubscribe { channel: Subscription, component: Option<Discriminator> },
    /// send responses to this socket
    SetSocket { path: Vec<u8> },
    /// remove a single component
    Drop { discrim: Option<Discriminator> },
    /// render something to the terminal
    Render { content: Vec<u8>, flush: bool },
    /// spawn a new process
    Spawn { command: Vec<u8>, args: Vec<Vec<u8>>, label: Vec<u8> },
    /// send a message to another component
    Message { content: Vec<u8>, sender: Discriminator, target: Discriminator, tag: Vec<u8> },
    /// create a new space at a space
    NewSpace { label: Vec<u8> },
    /// focus a specific space
    FocusAt,
    /// get a state value
    GetState { label: StateValue },
    /// get the value of a pool entry
    GetEntry { label: Vec<u8> },
    /// remove a pool entry
    RemoveEntry { label: Vec<u8> },
    /// set the value of a pool entry
    SetEntry { label: Vec<u8>, value: Vec<u8> },
    /// watch a certain value in the pool
    Watch { label: Vec<u8> },
    /// stop watching a certain value in the pool
    Unwatch { label: Vec<u8>, watcher: Discriminator },
    /// suppress a channel
    Suppress { channel: Subscription, priority: u32 },
    /// unsuppress a channel
    Unsuppress { channel: Subscription, id: u32 },
    /// a watch already bound to its watcher
    WatchInternal(WatchInternal),
}

/// What the per-component listener decides for one inbound request.
#[allow(inconsistent_fields)]
pub enum Prepared {
    /// hand the request to the broker, addressed to `target`
    Forward { target: Discriminator, content: RequestContent },
    /// answer the component directly, without touching the broker
    Reply { content: ResponseContent },
    /// resolve the pending acknowledgement slot `id` with `pass`
    Confirm { id: u32, pass: bool },
    /// record the component's client socket path, then confirm the listener
    InstallSocket { path: Vec<u8> },
    /// answer a state query: the host fills in what only it knows
    ReplyState { label: StateValue, is_focused: bool },
}

/// What the listener needs to know about the world to prepare a request.
pub struct ListenCtx {
    /// the discriminator of the currently focused component
    pub focused: Discriminator,
}

/// Re-target and rewrite one request arriving from the component `discrim`,
/// exactly as the per-component listener does before anything reaches the
/// dispatch pipeline: watches are bound to their watcher, subscriptions are
/// stamped with the subscriber and sent to its parent, drops default to the
/// requester and go to the dropped component's parent, renders go to the
/// master, messages are stamped with their sender and default to the master,
/// spawns default to the requester's parent, and acknowledgements, socket
/// installations and state queries are handled on the spot.
pub fn prepare_request(discrim: &Discriminator, target: Discriminator, content: RequestContent, ctx: &ListenCtx) -> (r: Vec<Prepared>)
    requires
        discrim@.len() > 0,
    ensures
        match content {
            RequestContent::Watch { label } => r@.len() == 1 && (r@[0] matches
                Prepared::Forward { target: t, content: RequestContent::WatchInternal(w) } && t@
                == target@ && w.label@ == label@ && w.watcher@ == discrim@),
            RequestContent::ConfirmRecieve { id, pass } => r@ == seq![
                Prepared::Confirm { id, pass },
            ],
            RequestContent::Subscribe { channel, priority, component } => r@.len() == 2 && (
            r@[0] matches Prepared::Reply { content: ResponseContent::Success { content:
            ResponseSuccess::SubscribeAdded } }) && (r@[1] matches Prepared::Forward {
                target: t,
                content: RequestContent::Subscribe { channel: c2, priority: p2, component: comp },
            } && t@ == discrim@.drop_last() && c2@ == channel@ && p2 == priority && (comp matches
                Some(d) && d@ == discrim@)),
            RequestContent::Unsubscribe { channel, component } => r@.len() == 1 && (r@[0] matches
                Prepared::Forward {
                target: t,
                content: RequestContent::Unsubscribe { channel: c2, component: comp },
            } && t@ == discrim@.drop_last() && c2@ == channel@ && (comp matches Some(d) && d@
                == discrim@)),
            RequestContent::SetSocket { path } => r@.len() == 2 && (r@[0] matches
                Prepared::InstallSocket { path: p } && p@ == path@) && (r@[1] matches
                Prepared::Reply { content: ResponseContent::Success { content:
                ResponseSuccess::ListenerSet { discrim: d } } } && d@ == discrim@),
            RequestContent::GetState { label } => r@.len() == 1 && (r@[0] matches
                Prepared::ReplyState { label: l, is_focused } && l == label && is_focused
                == crate::discrim::is_prefix_of(discrim@, ctx.focused@)),
            RequestContent::Drop { discrim: to_drop } => r@.len() == 1 && (r@[0] matches
                Prepared::Forward { target: t, content: RequestContent::Drop { discrim: d2 } }
                && {
                let dropped = match to_drop {
                    Option::Some(d) => d@,
                    Option::None => discrim@,
                };
                &&& dropped.len() > 0 ==> t@ == dropped.drop_last()
                &&& dropped.len() == 0 ==> t@ == dropped
                &&& (d2 matches Some(dd) && dd@ == dropped)
            }),
            RequestContent::Render { content: c, flush } => r@.len() == 1 && (r@[0] matches
                Prepared::Forward {
                target: t,
                content: RequestContent::Render { content: c2, flush: f2 },
            } && t@ == Seq::<usize>::empty() && c2@ == c@ && f2 == flush),
            RequestContent::Spawn { command, args, label } => r@.len() == 1 && (r@[0] matches
                Prepared::Forward {
                target: t,
                content: RequestContent::Spawn { command: c2, args: a2, label: l2 },
            } && c2@ == command@ && l2@ == label@ && a2@.len() == args@.len() && (target@.len()
                == 0 ==> t@ == discrim@.drop_last()) && (target@.len() > 0 ==> t@ == target@)),
            RequestContent::Unwatch { label, watcher } => r@.len() == 1 && (r@[0] matches
                Prepared::Forward {
                target: t,
                content: RequestContent::Unwatch { label: l2, watcher: w2 },
            } && t@ == target@ && l2@ == label@ && w2@ == discrim@),
            RequestContent::Message { content: c, sender, target: mtarget, tag } => r@.len() == 1
                && (r@[0] matches Prepared::Forward {
                target: t,
                content: RequestContent::Message {
                    content: c2,
                    sender: s2,
                    target: t2,
                    tag: g2,
                },
            } && t@ == target@ && c2@ == c@ && s2@ == discrim@ && g2@ == tag@ && t2@ == (
            if mtarget@.len() == 0 {
                Seq::<usize>::empty()
            } else {
                mtarget@
            })),
            _ => r@.len() == 1 && (r@[0] matches Prepared::Forward { target: t, content: c2 }
                && t@ == target@ && c2 == content),
        },
{
    let mut r: Vec<Prepared> = Vec::new();
    match content {
        RequestContent::Watch { label } => {
            r.push(
                Prepared::Forward {
                    target,
                    content: RequestContent::WatchInternal(
                        WatchInternal { label, watcher: discrim.clone() },
                    ),
                },
            );
        },
        RequestContent::ConfirmRecieve { id, pass } => {
            r.push(Prepared::Confirm { id, pass });
            proof {
                assert(r@ =~= seq![Prepared::Confirm { id, pass }]);
            }
        },
        RequestContent::Subscribe { channel, priority, component } => {
            r.push(
                Prepared::Reply {
                    content: ResponseContent::Success {
                        content: ResponseSuccess::SubscribeAdded,
                    },
                },
            );
            let parent = match discrim.immediate_parent() {
                Some(p) => p,
                None => Discriminator::master(),
            };
            r.push(
                Prepared::Forward {
                    target: parent,
                    content: RequestContent::Subscribe {
                        channel,
                        priority,
                        component: Some(discrim.clone()),
                    },
                },
            );
        },
        RequestContent::Unsubscribe { channel, component } => {
            let parent = match discrim.immediate_parent() {
                Some(p) => p,
                None => Discriminator::master(),
            };
            r.push(
                Prepared::Forward {
                    target: parent,
                    content: RequestContent::Unsubscribe {
                        channel,
                        component: Some(discrim.clone()),
                    },
                },
            );
        },
        RequestContent::SetSocket { path } => {
            r.push(Prepared::InstallSocket { path: dup_bytes(&path) });
            r.push(
                Prepared::Reply {
                    content: ResponseContent::Success {
                        content: ResponseSuccess::ListenerSet { discrim: discrim.clone() },
                    },
                },
            );
        },
        RequestContent::GetState { label } => {
            let is_focused = ctx.focused.starts_with(discrim);
            r.push(Prepared::ReplyState { label, is_focused });
        },
        RequestContent::Drop { discrim: to_drop } => {
            let dropped = match to_drop {
                Some(d) => d,
                None => discrim.clone(),
            };
            let parent = match dropped.immediate_parent() {
                Some(p) => p,
                None => Discriminator::master(),
            };
            proof {
                if dropped@.len() == 0 {
                    assert(parent@ =~= dropped@);
                }
            }
            r.push(
                Prepared::Forward {
                    target: parent,
                    content: RequestContent::Drop { discrim: Some(dropped) },
                },
            );
        },
        RequestContent::Render { content: c, flush } => {
            r.push(
                Prepared::Forward {
                    target: Discriminator::master(),
                    content: RequestContent::Render { content: c, flush },
                },
            );
        },
        RequestContent::Spawn { command, args, label } => {
            let t = if target.is_empty() {
                match discrim.immediate_parent() {
                    Some(p) => p,
                    None => Discriminator::master(),
                }
            } else {
                target
            };
            r.push(
                Prepared::Forward {
                    target: t,
                    content: RequestContent::Spawn { command, args, label },
                },
            );
        },
        RequestContent::Unwatch { label, watcher } => {
            r.push(
                Prepared::Forward {
                    target,
                    content: RequestContent::Unwatch { label, watcher: discrim.clone() },
                },
            );
        },
        RequestContent::Message { content: c, sender, target: mtarget, tag } => {
            let t2 = if mtarget.is_empty() {
                Discriminator::master()
            } else {
                mtarget
            };
            proof {
                if t2@.len() != 0 {
                } else {
                    assert(t2@ =~= Seq::<usize>::empty());
                }
            }
            r.push(
                Prepared::Forward {
                    target,
                    content: RequestContent::Message {
                        content: c,
                        sender: discrim.clone(),
                        target: t2,
                        tag,
                    },
                },
            );
        },
        other => {
            r.push(Prepared::Forward { target, content: other });
        },
    }
    r
}

} // verus!
