//! The broker: what happens when a request reaches its target component,
//! how requests travel toward a descendant, and how focus moves between the
//! children of a space. The processor is the sole caller; outward work
//! (socket writes, spawning, drawing) leaves as effects for the host to
//! perform.

use vstd::prelude::*;

use crate::channel::Subscription;
use crate::discrim::Discriminator;
use crate::discrim::is_prefix_of;
use crate::discrim::spec_own_id;
use crate::event::Event;
use crate::event::EventSerde;
use crate::event::views_of_subs;
use crate::passes::PassItem;
use crate::passes::after_subscribe;
use crate::passes::after_unsubscribe;
use crate::passes::has_id;
use crate::passes::spec_subscribers;
use crate::pool::UnwatchOutcome;
use crate::pool::after_remove;
use crate::pool::after_set;
use crate::pool::drop_watcher;
use crate::pool::item_live;
use crate::pool::value_of;
use crate::registry::ConnKind;
use crate::registry::ConnV;
use crate::registry::Focus;
use crate::registry::ParentRef;
use crate::registry::Registry;
use crate::registry::purge_conn;
use crate::request::RequestContent;
use crate::response::ResponseContent;
use crate::response::ResponseError;
use crate::response::ResponseSuccess;
use crate::suppressor::SuppressItem;
use crate::suppressor::after_suppress;
use crate::suppressor::after_unsuppress;
use crate::util::dup_bytes;

verus! {

/// Outward work a request leaves behind: the host performs it and, where an
/// answer is owed, reports back.
#[allow(inconsistent_fields)]
pub enum Effect {
    /// send this pool event to the watcher's client socket
    NotifyWatcher { watcher: usize, event: EventSerde },
    /// start a child process; the outcome comes back through `spawn_done`
    SpawnProcess { command: Vec<u8>, args: Vec<Vec<u8>>, label: Vec<u8>, parent: usize, fresh_id: usize },
    /// draw to the terminal
    RenderScreen { content: Vec<u8>, flush: bool },
    /// dispatch this event at the component
    DeliverEvent { to: usize, event: Event },
    /// tell this component it lost focus
    DeliverUnfocus { to: usize },
}

/// One `NotifyWatcher` effect per watcher, in the watchers' order, each
/// carrying the same pool event: `ValueUpdated` with the new value when one
/// is given, `ValueRemoved` otherwise, both naming the owner.
pub open spec fn notifies_watchers(
    effects: Seq<Effect>,
    ws: Seq<usize>,
    label: Seq<u8>,
    value: Option<Seq<u8>>,
    owner: Seq<usize>,
) -> bool {
    &&& effects.len() == ws.len()
    &&& forall|j: int|
        0 <= j < ws.len() ==> (#[trigger] effects[j] matches Effect::NotifyWatcher {
            watcher,
            event,
        } && watcher == ws[j] && (match value {
            Option::Some(v) => event matches EventSerde::ValueUpdated {
                label: l,
                new,
                discrim: d,
            } && l@ == label && new@ == v && d@ == owner,
            Option::None => event matches EventSerde::ValueRemoved { label: l, discrim: d }
                && l@ == label && d@ == owner,
        }))
}

/// The response is this success.
pub open spec fn answers_success(r: Option<ResponseContent>, s: ResponseSuccess) -> bool {
    r == Some(ResponseContent::Success { content: s })
}

/// The response is this error.
pub open spec fn answers_error(r: Option<ResponseContent>, e: ResponseError) -> bool {
    r == Some(ResponseContent::Error { content: e })
}

/// What handling one request at component `target` means, per kind: how the
/// table moves, which response content is owed, and which effects leave.
/// `cm0`/`lm0` are the connection and label maps before, `cm1`/`lm1` after;
/// `f0`/`f1` the global focus path before and after.
pub open spec fn request_step(
    cm0: Map<usize, ConnV>,
    lm0: Map<Seq<u8>, usize>,
    pairs0: Seq<(usize, ConnV)>,
    f0: Seq<usize>,
    target: usize,
    content: RequestContent,
    fresh_id: usize,
    cm1: Map<usize, ConnV>,
    lm1: Map<Seq<u8>, usize>,
    f1: Seq<usize>,
    resp: Option<ResponseContent>,
    effects: Seq<Effect>,
) -> bool {
    if !cm0.dom().contains(target) {
        &&& cm1 == cm0
        &&& lm1 == lm0
        &&& f1 == f0
        &&& answers_error(resp, ResponseError::ComponentNotFound)
        &&& effects.len() == 0
    } else {
        match content {
            RequestContent::Suppress { channel, priority } => {
                &&& cm1 == cm0.insert(
                    target,
                    ConnV {
                        sups: after_suppress(
                            cm0[target].sups,
                            channel@,
                            SuppressItem { priority, id: cm0[target].sups_next },
                        ),
                        sups_state: (cm0[target].sups_state + 1) as u32,
                        sups_next: (cm0[target].sups_next + 1) as u32,
                        ..cm0[target]
                    },
                )
                &&& lm1 == lm0
                &&& f1 == f0
                &&& answers_success(
                    resp,
                    ResponseSuccess::Suppressed { id: cm0[target].sups_next },
                )
                &&& effects.len() == 0
            },
            RequestContent::Unsuppress { channel, id } => {
                &&& cm1 == cm0.insert(
                    target,
                    ConnV {
                        sups: after_unsuppress(cm0[target].sups, channel@, id).0,
                        sups_state: (cm0[target].sups_state + 1) as u32,
                        ..cm0[target]
                    },
                )
                &&& lm1 == lm0
                &&& f1 == f0
                &&& answers_success(resp, ResponseSuccess::Unsuppressed)
                &&& effects.len() == 0
            },
            RequestContent::SetEntry { label, value } => {
                &&& cm1 == cm0.insert(
                    target,
                    ConnV { pool: after_set(cm0[target].pool, label@, value@), ..cm0[target] },
                )
                &&& lm1 == lm0
                &&& f1 == f0
                &&& answers_success(resp, ResponseSuccess::ValueSet)
                &&& notifies_watchers(
                    effects,
                    after_set(cm0[target].pool, label@, value@)[label@].1,
                    label@,
                    Some(value@),
                    cm0[target].discrim,
                )
            },
            RequestContent::RemoveEntry { label } => {
                &&& cm1 == cm0.insert(
                    target,
                    ConnV { pool: after_remove(cm0[target].pool, label@), ..cm0[target] },
                )
                &&& lm1 == lm0
                &&& f1 == f0
                &&& answers_success(resp, ResponseSuccess::RemovedValue)
                &&& notifies_watchers(
                    effects,
                    if cm0[target].pool.dom().contains(label@) {
                        cm0[target].pool[label@].1
                    } else {
                        Seq::empty()
                    },
                    label@,
                    None,
                    cm0[target].discrim,
                )
            },
            RequestContent::GetEntry { label } => {
                &&& cm1 == cm0
                &&& lm1 == lm0
                &&& f1 == f0
                &&& match value_of(cm0[target].pool, label@) {
                    Option::Some(v) => resp matches Some(ResponseContent::Success {
                        content: ResponseSuccess::Value { value },
                    }) && value@ == v,
                    Option::None => answers_error(resp, ResponseError::EntryNotFound),
                }
                &&& effects.len() == 0
            },
            RequestContent::WatchInternal(w) => {
                let wid = spec_own_id(w.watcher@);
                if cm0.dom().contains(wid) {
                    &&& cm1 == cm0.insert(
                        target,
                        ConnV {
                            pool: {
                                let m = cm0[target].pool;
                                if m.dom().contains(w.label@) {
                                    if m[w.label@].1.contains(wid) {
                                        m
                                    } else {
                                        m.insert(
                                            w.label@,
                                            (m[w.label@].0, m[w.label@].1.push(wid)),
                                        )
                                    }
                                } else {
                                    m.insert(w.label@, (None, seq![wid]))
                                }
                            },
                            ..cm0[target]
                        },
                    )
                    &&& lm1 == lm0
                    &&& f1 == f0
                    &&& answers_success(resp, ResponseSuccess::Watching)
                    &&& effects.len() == 0
                } else {
                    &&& cm1 == cm0
                    &&& lm1 == lm0
                    &&& f1 == f0
                    &&& answers_error(resp, ResponseError::ComponentNotFound)
                    &&& effects.len() == 0
                }
            },
            RequestContent::Unwatch { label, watcher } => {
                let wid = spec_own_id(watcher@);
                let m = cm0[target].pool;
                if !m.dom().contains(label@) {
                    &&& cm1 == cm0
                    &&& lm1 == lm0
                    &&& f1 == f0
                    &&& answers_error(resp, ResponseError::EntryNotFound)
                    &&& effects.len() == 0
                } else if !m[label@].1.contains(wid) {
                    &&& cm1 == cm0
                    &&& lm1 == lm0
                    &&& f1 == f0
                    &&& answers_success(resp, ResponseSuccess::Unwatched)
                    &&& effects.len() == 0
                } else {
                    let left = (m[label@].0, drop_watcher(m[label@].1, wid));
                    &&& cm1 == cm0.insert(
                        target,
                        ConnV {
                            pool: if item_live(left) {
                                m.insert(label@, left)
                            } else {
                                m.remove(label@)
                            },
                            ..cm0[target]
                        },
                    )
                    &&& lm1 == lm0
                    &&& f1 == f0
                    &&& answers_success(resp, ResponseSuccess::Unwatched)
                    &&& notifies_watchers(
                        effects,
                        seq![wid],
                        label@,
                        None,
                        cm0[target].discrim,
                    )
                }
            },
            RequestContent::Subscribe { channel, priority, component } => {
                match component {
                    Option::Some(d) => {
                        let cid = spec_own_id(d@);
                        if cm0[target].children.contains(cid) {
                            &&& cm1 == cm0.insert(
                                target,
                                ConnV {
                                    passes: after_subscribe(
                                        cm0[target].passes,
                                        channel@,
                                        PassItem { id: cid, priority },
                                    ).0,
                                    ..cm0[target]
                                },
                            )
                            &&& lm1 == lm0
                            &&& f1 == f0
                            &&& answers_success(resp, ResponseSuccess::SubscribeAdded)
                            &&& effects.len() == 0
                        } else {
                            &&& cm1 == cm0
                            &&& lm1 == lm0
                            &&& f1 == f0
                            &&& answers_error(resp, ResponseError::ComponentNotFound)
                            &&& effects.len() == 0
                        }
                    },
                    Option::None => {
                        &&& cm1 == cm0
                        &&& lm1 == lm0
                        &&& f1 == f0
                        &&& answers_error(resp, ResponseError::ComponentNotFound)
                        &&& effects.len() == 0
                    },
                }
            },
            RequestContent::Unsubscribe { channel, component } => {
                match component {
                    Option::Some(d) => {
                        let cid = spec_own_id(d@);
                        if cm0[target].children.contains(cid) {
                            &&& cm1 == cm0.insert(
                                target,
                                ConnV {
                                    passes: after_unsubscribe(
                                        cm0[target].passes,
                                        channel@,
                                        cid,
                                    ).0,
                                    ..cm0[target]
                                },
                            )
                            &&& lm1 == lm0
                            &&& f1 == f0
                            &&& answers_success(resp, ResponseSuccess::SubscribeRemoved)
                            &&& effects.len() == 0
                        } else {
                            &&& cm1 == cm0
                            &&& lm1 == lm0
                            &&& f1 == f0
                            &&& answers_error(resp, ResponseError::ComponentNotFound)
                            &&& effects.len() == 0
                        }
                    },
                    Option::None => {
                        &&& cm1 == cm0
                        &&& lm1 == lm0
                        &&& f1 == f0
                        &&& answers_error(resp, ResponseError::ComponentNotFound)
                        &&& effects.len() == 0
                    },
                }
            },
            RequestContent::Drop { discrim } => {
                match discrim {
                    Option::Some(d) => {
                        let cid = spec_own_id(d@);
                        if cm0[target].children.contains(cid) && cid != 0
                            && cm0.dom().contains(cid) {
                            let rem = crate::registry::removed_ids(pairs0, cm0[cid].discrim);
                            &&& cm1 == Map::new(
                                |x: usize| cm0.dom().contains(x) && !is_prefix_of(
                                    cm0[cid].discrim,
                                    cm0[x].discrim,
                                ),
                                |x: usize| crate::registry::purge_conn_many(cm0[x], rem),
                            )
                            &&& lm1 == Map::new(
                                |l: Seq<u8>| lm0.dom().contains(l) && !rem.contains(lm0[l]),
                                |l: Seq<u8>| lm0[l],
                            )
                            &&& f1 == f0
                            &&& answers_success(resp, ResponseSuccess::Dropped)
                            &&& effects.len() == 0
                        } else {
                            &&& cm1 == cm0
                            &&& lm1 == lm0
                            &&& f1 == f0
                            &&& answers_error(resp, ResponseError::ComponentNotFound)
                            &&& effects.len() == 0
                        }
                    },
                    Option::None => {
                        &&& cm1 == cm0
                        &&& lm1 == lm0
                        &&& f1 == f0
                        &&& answers_error(resp, ResponseError::ComponentNotFound)
                        &&& effects.len() == 0
                    },
                }
            },
            RequestContent::NewSpace { label } => {
                if !cm0.dom().contains(fresh_id) && !lm0.dom().contains(label@) && fresh_id != 0
                    && cm0[target].kind is Space {
                    &&& cm1 == cm0.insert(
                        target,
                        ConnV { children: cm0[target].children.push(fresh_id), ..cm0[target] },
                    ).insert(
                        fresh_id,
                        ConnV {
                            discrim: cm0[target].discrim.push(fresh_id),
                            parent: target,
                            children: Seq::empty(),
                            client: false,
                            label: label@,
                            kind: ConnKind::Space,
                            focus: Focus::This,
                            pool: Map::empty(),
                            sups: Map::empty(),
                            sups_state: 0,
                            sups_next: 1,
                            passes: Map::empty(),
                        },
                    )
                    &&& lm1 == lm0.insert(label@, fresh_id)
                    &&& f1 == f0
                    &&& (resp matches Some(ResponseContent::Success {
                        content: ResponseSuccess::SpaceCreated { discrim },
                    }) && discrim@ == cm0[target].discrim.push(fresh_id))
                    &&& effects.len() == 0
                } else {
                    &&& cm1 == cm0
                    &&& lm1 == lm0
                    &&& f1 == f0
                    &&& answers_error(resp, ResponseError::ComponentNotFound)
                    &&& effects.len() == 0
                }
            },
            RequestContent::Spawn { command, args, label } => {
                if cm0[target].kind is Space {
                    &&& cm1 == cm0
                    &&& lm1 == lm0
                    &&& f1 == f0
                    &&& resp is None
                    &&& effects.len() == 1
                    &&& (effects[0] matches Effect::SpawnProcess {
                        command: c2,
                        args: a2,
                        label: l2,
                        parent,
                        fresh_id: fid,
                    } && c2@ == command@ && l2@ == label@ && a2@ == args@ && parent == target
                        && fid == fresh_id)
                } else {
                    // spawning belongs to spaces, not processes
                    &&& cm1 == cm0
                    &&& lm1 == lm0
                    &&& f1 == f0
                    &&& resp == Some(ResponseContent::Undelivered)
                    &&& effects.len() == 0
                }
            },
            RequestContent::Message { content: mc, sender, target: mtarget, tag } => {
                &&& cm1 == cm0
                &&& lm1 == lm0
                &&& f1 == f0
                &&& answers_success(resp, ResponseSuccess::MessageDelivered)
                &&& effects.len() == 1
                &&& (effects[0] matches Effect::DeliverEvent {
                    to,
                    event: Event::Message { sender: s2, target: t2, content: c2, tag: g2 },
                } && to == target && s2@ == sender@ && t2@ == mtarget@ && c2@ == mc@ && g2@
                    == tag@)
            },
            RequestContent::Render { content: rc, flush } => {
                &&& cm1 == cm0
                &&& lm1 == lm0
                &&& f1 == f0
                &&& answers_success(resp, ResponseSuccess::Rendered)
                &&& effects.len() == 1
                &&& (effects[0] matches Effect::RenderScreen { content: c2, flush: fl2 } && c2@
                    == rc@ && fl2 == flush)
            },
            RequestContent::FocusAt => {
                &&& cm1 == cm0.insert(target, ConnV { focus: Focus::This, ..cm0[target] })
                &&& lm1 == lm0
                &&& f1 == cm0[target].discrim
                &&& answers_success(resp, ResponseSuccess::FocusChanged)
                &&& match cm0[target].focus {
                    Focus::Children(c) => effects.len() == 1 && (effects[0] matches
                        Effect::DeliverUnfocus { to } && to == c),
                    Focus::This => effects.len() == 0,
                }
            },
            _ => {
                // acknowledgements, socket installation, raw watches and
                // state queries are settled by the per-component listener
                // and never reach a component
                &&& cm1 == cm0
                &&& lm1 == lm0
                &&& f1 == f0
                &&& resp == Some(ResponseContent::Undelivered)
                &&& effects.len() == 0
            },
        }
    }
}

/// Build one `NotifyWatcher` per watcher, all carrying the same pool event.
fn notify_all(
    ws: &Vec<usize>,
    label: &Vec<u8>,
    value: Option<&Vec<u8>>,
    owner: &Discriminator,
) -> (r: Vec<Effect>)
    ensures
        notifies_watchers(
            r@,
            ws@,
            label@,
            match value {
                Option::Some(v) => Some(v@),
                Option::None => None,
            },
            owner@,
        ),
{
    let ghost valv: Option<Seq<u8>> = match value {
        Option::Some(v) => Some(v@),
        Option::None => None,
    };
    let n: usize = ws.len();
    let mut r: Vec<Effect> = Vec::new();
    let mut i: usize = 0;
    while i < n
        invariant
            n == ws@.len(),
            0 <= i <= n,
            r@.len() == i,
            valv == (match value {
                Option::Some(v) => Some(v@),
                Option::None => None,
            }),
            forall|j: int|
                0 <= j < i ==> (#[trigger] r@[j] matches Effect::NotifyWatcher {
                    watcher,
                    event,
                } && watcher == ws@[j] && (match valv {
                    Option::Some(v) => event matches EventSerde::ValueUpdated {
                        label: l,
                        new,
                        discrim: d,
                    } && l@ == label@ && new@ == v && d@ == owner@,
                    Option::None => event matches EventSerde::ValueRemoved {
                        label: l,
                        discrim: d,
                    } && l@ == label@ && d@ == owner@,
                })),
        decreases n - i,
    {
        let event = match value {
            Some(v) => EventSerde::ValueUpdated {
                label: dup_bytes(label),
                new: dup_bytes(v),
                discrim: owner.clone(),
            },
            None => EventSerde::ValueRemoved { label: dup_bytes(label), discrim: owner.clone() },
        };
        r.push(Effect::NotifyWatcher { watcher: ws[i], event });
        i = i + 1;
    }
    r
}

/// Handle one request whose target is component `target`: the registry moves,
/// the response content (when one is owed at once) and the outward effects
/// come back, exactly as `request_step` says per request kind. `fresh_id` is
/// the id the host allocated in case the request creates a component;
/// `focused` is the global focus path.
#[verifier::rlimit(100)]
#[verifier::spinoff_prover]
pub fn handle_request(
    reg: &mut Registry,
    target: usize,
    content: RequestContent,
    fresh_id: usize,
    focused: &mut Discriminator,
) -> (r: (Option<ResponseContent>, Vec<Effect>))
    requires
        old(reg).wf(),
        old(reg).cmap().dom().contains(target) ==> old(reg).cmap()[target].sups_state
            < u32::MAX && old(reg).cmap()[target].sups_next < u32::MAX,
    ensures
        final(reg).wf(),
        request_step(
            old(reg).cmap(),
            old(reg).lmap(),
            old(reg).cpairs(),
            old(focused)@,
            target,
            content,
            fresh_id,
            final(reg).cmap(),
            final(reg).lmap(),
            final(focused)@,
            r.0,
            r.1@,
        ),
{
    if let Some(_) = reg.get(target) {
    } else {
        return (
            Some(ResponseContent::Error { content: ResponseError::ComponentNotFound }),
            Vec::new(),
        );
    }
    match content {
        RequestContent::Suppress { channel, priority } => {
            let sid = reg.suppress(target, channel, priority);
            match sid {
                Some(id) => (
                    Some(
                        ResponseContent::Success {
                            content: ResponseSuccess::Suppressed { id },
                        },
                    ),
                    Vec::new(),
                ),
                None => {
                    proof {
                        assert(false);
                    }
                    (None, Vec::new())
                },
            }
        },
        RequestContent::Unsuppress { channel, id } => {
            let _ = reg.unsuppress(target, channel, id);
            (
                Some(ResponseContent::Success { content: ResponseSuccess::Unsuppressed }),
                Vec::new(),
            )
        },
        RequestContent::SetEntry { label, value } => {
            let value2 = dup_bytes(&value);
            let own = match reg.get(target) {
                Some(c) => c.discrim.clone(),
                None => Discriminator::master(),
            };
            match reg.pool_set(target, &label, value) {
                Some(ws) => {
                    let effects = notify_all(&ws, &label, Some(&value2), &own);
                    (
                        Some(
                            ResponseContent::Success { content: ResponseSuccess::ValueSet },
                        ),
                        effects,
                    )
                },
                None => {
                    proof {
                        assert(false);
                    }
                    (None, Vec::new())
                },
            }
        },
        RequestContent::RemoveEntry { label } => {
            let own = match reg.get(target) {
                Some(c) => c.discrim.clone(),
                None => Discriminator::master(),
            };
            match reg.pool_clear(target, &label) {
                Some(ws) => {
                    let effects = notify_all(&ws, &label, None, &own);
                    (
                        Some(
                            ResponseContent::Success {
                                content: ResponseSuccess::RemovedValue,
                            },
                        ),
                        effects,
                    )
                },
                None => {
                    proof {
                        assert(false);
                    }
                    (None, Vec::new())
                },
            }
        },
        RequestContent::GetEntry { label } => {
            let r = match reg.get(target) {
                Some(c) => {
                    match c.pool.get(&label) {
                        Some(v) => ResponseContent::Success {
                            content: ResponseSuccess::Value { value: v },
                        },
                        None => ResponseContent::Error {
                            content: ResponseError::EntryNotFound,
                        },
                    }
                },
                None => ResponseContent::Error { content: ResponseError::ComponentNotFound },
            };
            (Some(r), Vec::new())
        },
        RequestContent::WatchInternal(w) => {
            let wid = w.watcher.own_id();
            let watcher_known = match reg.get(wid) {
                Some(_) => true,
                None => false,
            };
            if !watcher_known {
                return (
                    Some(
                        ResponseContent::Error {
                            content: ResponseError::ComponentNotFound,
                        },
                    ),
                    Vec::new(),
                );
            }
            let _ = reg.pool_watch(target, &w.label, wid);
            (
                Some(ResponseContent::Success { content: ResponseSuccess::Watching }),
                Vec::new(),
            )
        },
        RequestContent::Unwatch { label, watcher } => {
            let wid = watcher.own_id();
            let own = match reg.get(target) {
                Some(c) => c.discrim.clone(),
                None => Discriminator::master(),
            };
            match reg.pool_unwatch(target, &label, wid) {
                Some(UnwatchOutcome::NoEntry) => {
                    proof {
                        assert(reg.cmap() =~= old(reg).cmap());
                    }
                    (
                        Some(
                            ResponseContent::Error {
                                content: ResponseError::EntryNotFound,
                            },
                        ),
                        Vec::new(),
                    )
                },
                Some(UnwatchOutcome::NotWatching) => {
                    proof {
                        assert(reg.cmap() =~= old(reg).cmap());
                    }
                    (
                        Some(
                            ResponseContent::Success {
                                content: ResponseSuccess::Unwatched,
                            },
                        ),
                        Vec::new(),
                    )
                },
                Some(UnwatchOutcome::Removed) => {
                    let mut ws: Vec<usize> = Vec::new();
                    ws.push(wid);
                    proof {
                        assert(ws@ =~= seq![spec_own_id(watcher@)]);
                    }
                    let effects = notify_all(&ws, &label, None, &own);
                    (
                        Some(
                            ResponseContent::Success {
                                content: ResponseSuccess::Unwatched,
                            },
                        ),
                        effects,
                    )
                },
                None => {
                    proof {
                        assert(false);
                    }
                    (None, Vec::new())
                },
            }
        },
        RequestContent::Subscribe { channel, priority, component } => {
            match component {
                Some(d) => {
                    let cid = d.own_id();
                    let is_child = match reg.get(target) {
                        Some(c) => contains_id(&c.connections, cid),
                        None => false,
                    };
                    if is_child {
                        let _ = reg.pass_subscribe(
                            target,
                            channel,
                            PassItem { id: cid, priority },
                        );
                        (
                            Some(
                                ResponseContent::Success {
                                    content: ResponseSuccess::SubscribeAdded,
                                },
                            ),
                            Vec::new(),
                        )
                    } else {
                        (
                            Some(
                                ResponseContent::Error {
                                    content: ResponseError::ComponentNotFound,
                                },
                            ),
                            Vec::new(),
                        )
                    }
                },
                None => (
                    Some(
                        ResponseContent::Error {
                            content: ResponseError::ComponentNotFound,
                        },
                    ),
                    Vec::new(),
                ),
            }
        },
        RequestContent::Unsubscribe { channel, component } => {
            match component {
                Some(d) => {
                    let cid = d.own_id();
                    let is_child = match reg.get(target) {
                        Some(c) => contains_id(&c.connections, cid),
                        None => false,
                    };
                    if is_child {
                        let _ = reg.pass_unsubscribe(target, channel, cid);
                        (
                            Some(
                                ResponseContent::Success {
                                    content: ResponseSuccess::SubscribeRemoved,
                                },
                            ),
                            Vec::new(),
                        )
                    } else {
                        (
                            Some(
                                ResponseContent::Error {
                                    content: ResponseError::ComponentNotFound,
                                },
                            ),
                            Vec::new(),
                        )
                    }
                },
                None => (
                    Some(
                        ResponseContent::Error {
                            content: ResponseError::ComponentNotFound,
                        },
                    ),
                    Vec::new(),
                ),
            }
        },
        RequestContent::Drop { discrim } => {
            match discrim {
                Some(d) => {
                    let cid = d.own_id();
                    let resp = drop_child(reg, target, cid);
                    (resp, Vec::new())
                },
                None => (
                    Some(
                        ResponseContent::Error {
                            content: ResponseError::ComponentNotFound,
                        },
                    ),
                    Vec::new(),
                ),
            }
        },
        RequestContent::NewSpace { label } => {
            match reg.create(fresh_id, ParentRef::ById(target), false, label, ConnKind::Space) {
                Ok(()) => {
                    let d = match reg.get(fresh_id) {
                        Some(c) => c.discrim.clone(),
                        None => Discriminator::master(),
                    };
                    (
                        Some(
                            ResponseContent::Success {
                                content: ResponseSuccess::SpaceCreated { discrim: d },
                            },
                        ),
                        Vec::new(),
                    )
                },
                Err(_) => (
                    Some(
                        ResponseContent::Error {
                            content: ResponseError::ComponentNotFound,
                        },
                    ),
                    Vec::new(),
                ),
            }
        },
        RequestContent::Spawn { command, args, label } => {
            let target_is_space = match reg.get(target) {
                Some(c) => match c.kind {
                    ConnKind::Space => true,
                    ConnKind::Process => false,
                },
                None => false,
            };
            if target_is_space {
                let mut effects: Vec<Effect> = Vec::new();
                effects.push(
                    Effect::SpawnProcess { command, args, label, parent: target, fresh_id },
                );
                (None, effects)
            } else {
                (Some(ResponseContent::Undelivered), Vec::new())
            }
        },
        RequestContent::Message { content: mc, sender, target: mtarget, tag } => {
            let mut effects: Vec<Effect> = Vec::new();
            effects.push(
                Effect::DeliverEvent {
                    to: target,
                    event: Event::Message { sender, target: mtarget, content: mc, tag },
                },
            );
            (
                Some(
                    ResponseContent::Success {
                        content: ResponseSuccess::MessageDelivered,
                    },
                ),
                effects,
            )
        },
        RequestContent::Render { content: rc, flush } => {
            let mut effects: Vec<Effect> = Vec::new();
            effects.push(Effect::RenderScreen { content: rc, flush });
            (
                Some(ResponseContent::Success { content: ResponseSuccess::Rendered }),
                effects,
            )
        },
        RequestContent::FocusAt => {
            // focus settles on this very component; an old focused child
            // subtree is told it lost focus, and the global focus path moves
            let mut effects: Vec<Effect> = Vec::new();
            let (own, old_focus) = match reg.get(target) {
                Some(c) => (c.discrim.clone(), c.focus),
                None => (Discriminator::master(), Focus::This),
            };
            match old_focus {
                Focus::Children(c) => {
                    effects.push(Effect::DeliverUnfocus { to: c });
                },
                Focus::This => {
                },
            }
            let _ = reg.set_focus(target, Focus::This);
            *focused = own;
            (
                Some(ResponseContent::Success { content: ResponseSuccess::FocusChanged }),
                effects,
            )
        },
        _ => {
            (Some(ResponseContent::Undelivered), Vec::new())
        },
    }
}

/// The Drop arm at its target: an existing direct child is removed with
/// its whole subtree; anything else is refused and nothing changes.
#[verifier::rlimit(100)]
#[verifier::spinoff_prover]
fn drop_child(reg: &mut Registry, target: usize, cid: usize) -> (resp: Option<ResponseContent>)
    requires
        old(reg).wf(),
        old(reg).cmap().dom().contains(target),
    ensures
        final(reg).wf(),
        if old(reg).cmap()[target].children.contains(cid) && cid != 0 && old(
            reg,
        ).cmap().dom().contains(cid) {
            let rem = crate::registry::removed_ids(
                old(reg).cpairs(),
                old(reg).cmap()[cid].discrim,
            );
            &&& final(reg).cmap() == Map::new(
                |x: usize| old(reg).cmap().dom().contains(x) && !is_prefix_of(
                    old(reg).cmap()[cid].discrim,
                    old(reg).cmap()[x].discrim,
                ),
                |x: usize| crate::registry::purge_conn_many(old(reg).cmap()[x], rem),
            )
            &&& final(reg).lmap() == Map::new(
                |l: Seq<u8>| old(reg).lmap().dom().contains(l) && !rem.contains(
                    old(reg).lmap()[l],
                ),
                |l: Seq<u8>| old(reg).lmap()[l],
            )
            &&& answers_success(resp, ResponseSuccess::Dropped)
        } else {
            &&& final(reg).cmap() == old(reg).cmap()
            &&& final(reg).lmap() == old(reg).lmap()
            &&& answers_error(resp, ResponseError::ComponentNotFound)
        },
{
    // only a direct child of the target may be dropped here; its whole
    // subtree goes with it
    let is_child = match reg.get(target) {
        Some(c) => contains_id(&c.connections, cid),
        None => false,
    };
    if is_child {
        proof {
            let ch = old(reg).cmap()[target].children;
            let w = choose|w: int| 0 <= w < ch.len() && ch[w] == cid;
            assert(old(reg).cmap().dom().contains(cid) && cid != 0);
        }
        let dropped = reg.remove_subtree(cid);
        proof {
            assert(dropped);
        }
        Some(ResponseContent::Success { content: ResponseSuccess::Dropped })
    } else {
        Some(ResponseContent::Error { content: ResponseError::ComponentNotFound })
    }
}

/// Whether `ids` holds `id`.
pub fn contains_id(ids: &Vec<usize>, id: usize) -> (r: bool)
    ensures
        r == ids@.contains(id),
{
    let n: usize = ids.len();
    let mut i: usize = 0;
    while i < n
        invariant
            n == ids@.len(),
            0 <= i <= n,
            forall|j: int| 0 <= j < i ==> ids@[j] != id,
        decreases n - i,
    {
        if ids[i] == id {
            return true;
        }
        i = i + 1;
    }
    proof {
        if ids@.contains(id) {
            let w = choose|w: int| 0 <= w < ids@.len() && ids@[w] == id;
        }
    }
    false
}

/// Where a request addressed to a descendant of `space` goes next: to a
/// direct child process (delivered only when, for an event-carrying request,
/// that process subscribes to one of its channels), into a direct child
/// subspace, or nowhere when the target is not below a direct child.
pub enum RouteDecision {
    /// deliver the request to this child process
    DeliverTo { id: usize },
    /// the child process exists but subscribes to none of the channels:
    /// answer `Undelivered`
    Undelivered { id: usize },
    /// pass the request on into this child subspace
    Forward { id: usize },
    /// no direct child of the space leads to the target
    NotFound,
}

/// What the router decides, at the mathematical level: an event-carrying
/// request reaches the child process only when the process subscribes to
/// one of the channels and the space's suppress level admits its recorded
/// priority.
pub open spec fn spec_route(
    cm: Map<usize, ConnV>,
    space: usize,
    target: Seq<usize>,
    channels: Option<Seq<crate::channel::SubV>>,
) -> RouteDecision {
    let d = cm[space].discrim;
    if !(is_prefix_of(d, target) && d.len() < target.len()) {
        RouteDecision::NotFound
    } else {
        let next = target[d.len() as int];
        if !cm[space].children.contains(next) {
            RouteDecision::NotFound
        } else if cm[next].kind is Space {
            RouteDecision::Forward { id: next }
        } else {
            match channels {
                Option::Some(chs) => {
                    let subs = spec_subscribers(cm[space].passes, chs);
                    let f = crate::passes::find_pass(subs, next);
                    if f == -1 {
                        RouteDecision::Undelivered { id: next }
                    } else if crate::dispatch::level_admits(
                        crate::suppressor::spec_level(cm[space].sups, chs),
                        subs[f].priority,
                    ) {
                        RouteDecision::DeliverTo { id: next }
                    } else {
                        RouteDecision::Undelivered { id: next }
                    }
                },
                Option::None => RouteDecision::DeliverTo { id: next },
            }
        }
    }
}

/// Route one request addressed to `target` from the space `space`: the next
/// hop is the child extending the space's path toward the target. A child
/// subspace takes the request onward; a child process receives it, except
/// that an event-carrying request (its channels given) reaches the process
/// only if the process subscribes to one of them — otherwise the sender is
/// owed `Undelivered`. A target below no direct child is not found.
pub fn route_request(
    reg: &Registry,
    space: usize,
    target: &Discriminator,
    channels: Option<&Vec<Subscription>>,
) -> (r: RouteDecision)
    requires
        reg.wf(),
        reg.cmap().dom().contains(space),
    ensures
        r == spec_route(
            reg.cmap(),
            space,
            target@,
            match channels {
                Option::Some(chs) => Some(views_of_subs(chs@)),
                Option::None => None,
            },
        ),
{
    let c = match reg.get(space) {
        Some(c) => c,
        None => {
            proof {
                assert(false);
            }
            return RouteDecision::NotFound;
        },
    };
    proof {
        assert(c.discrim@ == reg.cmap()[space].discrim);
        assert(c.connections@ == reg.cmap()[space].children);
    }
    if !(target.starts_with(&c.discrim) && c.discrim.len() < target.len()) {
        return RouteDecision::NotFound;
    }
    let next = target.0[c.discrim.len()];
    if !contains_id(&c.connections, next) {
        return RouteDecision::NotFound;
    }
    proof {
        assert(reg.cmap()[space].children.contains(next));
        crate::assoc::lemma_amap_dom::<usize, ConnV>(reg.cpairs());
    }
    let next_is_space = match reg.get(next) {
        Some(nc) => {
            proof {
                assert(nc.kind == reg.cmap()[next].kind);
            }
            match nc.kind {
                ConnKind::Space => true,
                ConnKind::Process => false,
            }
        },
        None => {
            proof {
                assert(false);
            }
            false
        },
    };
    if next_is_space {
        return RouteDecision::Forward { id: next };
    }
    match channels {
        Some(chs) => {
            let c2 = match reg.get(space) {
                Some(c2) => c2,
                None => {
                    proof {
                        assert(false);
                    }
                    return RouteDecision::NotFound;
                },
            };
            proof {
                assert(c2.passes@ == reg.cmap()[space].passes);
                assert(c2.suppressors@ == reg.cmap()[space].sups);
            }
            let level = c2.suppressors.suppress_level(chs);
            let subs = c2.passes.subscribers(chs);
            let n: usize = subs.len();
            let mut fidx: Option<usize> = None;
            let mut i: usize = 0;
            while i < n
                invariant
                    n == subs@.len(),
                    0 <= i <= n,
                    match fidx {
                        Option::Some(f) => f < i && subs@[f as int].id == next && forall|j: int|
                            0 <= j < f ==> subs@[j].id != next,
                        Option::None => forall|j: int| 0 <= j < i ==> subs@[j].id != next,
                    },
                decreases n - i,
            {
                let taken = match fidx {
                    Some(_) => true,
                    None => false,
                };
                if !taken && subs[i].id == next {
                    fidx = Some(i);
                }
                i = i + 1;
            }
            proof {
                crate::passes::lemma_find_pass(subs@, next);
            }
            match fidx {
                Some(f) => {
                    proof {
                        assert(crate::passes::find_pass(subs@, next) == f as int) by {
                            let fp = crate::passes::find_pass(subs@, next);
                            if fp == -1 {
                                assert(subs@[f as int].id != next);
                            }
                            if fp != -1 && fp < f as int {
                                assert(subs@[fp].id != next);
                            }
                            if fp != -1 && fp > f as int {
                                assert(subs@[f as int].id != next);
                            }
                        }
                    }
                    if crate::dispatch::level_admits_exec(&level, &subs[f].priority) {
                        RouteDecision::DeliverTo { id: next }
                    } else {
                        RouteDecision::Undelivered { id: next }
                    }
                },
                None => {
                    proof {
                        assert(crate::passes::find_pass(subs@, next) == -1) by {
                            let fp = crate::passes::find_pass(subs@, next);
                            if fp != -1 {
                                assert(subs@[fp].id != next);
                            }
                        }
                    }
                    RouteDecision::Undelivered { id: next }
                },
            }
        },
        None => {
            proof {
                assert(spec_route(reg.cmap(), space, target@, None)
                    == RouteDecision::DeliverTo { id: next });
            }
            RouteDecision::DeliverTo { id: next }
        },
    }
}

/// One step of the focus switch a `FocusAt` performs at a space on the way
/// to its target: per the focus rules, a space already focused toward the
/// right child forwards unchanged; otherwise the old focused child is told
/// it lost focus, the space turns toward the target's subtree, the request
/// travels on to be evaluated there, and the new child gains focus.
pub enum FocusAction {
    /// tell this child subtree it lost focus
    Unfocus { to: usize },
    /// pass the focus request on to this child, to be evaluated there
    ForwardFocusAt { to: usize },
    /// tell this child it gained focus
    GainFocus { to: usize },
}

pub fn focus_step(current: Focus, next_hop: usize) -> (r: (Focus, Vec<FocusAction>))
    ensures
        match current {
            Focus::Children(c) => if c == next_hop {
                r.0 == current && r.1@ == seq![FocusAction::ForwardFocusAt { to: next_hop }]
            } else {
                r.0 == Focus::Children(next_hop) && r.1@ == seq![
                    FocusAction::Unfocus { to: c },
                    FocusAction::ForwardFocusAt { to: next_hop },
                    FocusAction::GainFocus { to: next_hop },
                ]
            },
            Focus::This => r.0 == Focus::Children(next_hop) && r.1@ == seq![
                FocusAction::ForwardFocusAt { to: next_hop },
                FocusAction::GainFocus { to: next_hop },
            ],
        },
{
    let mut actions: Vec<FocusAction> = Vec::new();
    match current {
        Focus::Children(c) => {
            if c == next_hop {
                actions.push(FocusAction::ForwardFocusAt { to: next_hop });
                proof {
                    assert(actions@ =~= seq![FocusAction::ForwardFocusAt { to: next_hop }]);
                }
                (current, actions)
            } else {
                actions.push(FocusAction::Unfocus { to: c });
                actions.push(FocusAction::ForwardFocusAt { to: next_hop });
                actions.push(FocusAction::GainFocus { to: next_hop });
                proof {
                    assert(actions@ =~= seq![
                        FocusAction::Unfocus { to: c },
                        FocusAction::ForwardFocusAt { to: next_hop },
                        FocusAction::GainFocus { to: next_hop },
                    ]);
                }
                (Focus::Children(next_hop), actions)
            }
        },
        Focus::This => {
            actions.push(FocusAction::ForwardFocusAt { to: next_hop });
            actions.push(FocusAction::GainFocus { to: next_hop });
            proof {
                assert(actions@ =~= seq![
                    FocusAction::ForwardFocusAt { to: next_hop },
                    FocusAction::GainFocus { to: next_hop },
                ]);
            }
            (Focus::Children(next_hop), actions)
        },
    }
}

/// Apply one `FocusAt` hop at space `space` on the way to `target`: the
/// space's focus state moves as `focus_step` says, and the actions come
/// back for the host to carry out in order.
pub fn focus_at(reg: &mut Registry, space: usize, target: &Discriminator) -> (r: Vec<
    FocusAction,
>)
    requires
        old(reg).wf(),
        old(reg).cmap().dom().contains(space),
        is_prefix_of(old(reg).cmap()[space].discrim, target@),
        old(reg).cmap()[space].discrim.len() < target@.len(),
    ensures
        final(reg).wf(),
        ({
            let next = target@[old(reg).cmap()[space].discrim.len() as int];
            let step = crate::broker::spec_focus_step(old(reg).cmap()[space].focus, next);
            &&& final(reg).cmap() == old(reg).cmap().insert(
                space,
                ConnV { focus: step.0, ..old(reg).cmap()[space] },
            )
            &&& final(reg).lmap() == old(reg).lmap()
            &&& r@ == step.1
        }),
{
    let (dlen, current) = match reg.get(space) {
        Some(c) => (c.discrim.len(), c.focus),
        None => (0, Focus::This),
    };
    let next = target.0[dlen];
    let (new_focus, actions) = focus_step(current, next);
    let _ = reg.set_focus(space, new_focus);
    proof {
        let nextg = target@[old(reg).cmap()[space].discrim.len() as int];
        let step = spec_focus_step(old(reg).cmap()[space].focus, nextg);
        assert(new_focus == step.0);
        assert(actions@ == step.1);
    }
    actions
}

/// What `focus_step` yields, at the mathematical level.
pub open spec fn spec_focus_step(current: Focus, next_hop: usize) -> (Focus, Seq<FocusAction>) {
    match current {
        Focus::Children(c) => if c == next_hop {
            (current, seq![FocusAction::ForwardFocusAt { to: next_hop }])
        } else {
            (
                Focus::Children(next_hop),
                seq![
                    FocusAction::Unfocus { to: c },
                    FocusAction::ForwardFocusAt { to: next_hop },
                    FocusAction::GainFocus { to: next_hop },
                ],
            )
        },
        Focus::This => (
            Focus::Children(next_hop),
            seq![
                FocusAction::ForwardFocusAt { to: next_hop },
                FocusAction::GainFocus { to: next_hop },
            ],
        ),
    }
}

/// Register the outcome the host reports for a spawn effect: on success the
/// new process enters the table under the allocated id and the requester
/// learns the new path; on failure — the process would not start, or the
/// allocated id, the label or the parent cannot take it — nothing changes
/// and the requester learns `SpawnFailed`.
pub fn spawn_done(
    reg: &mut Registry,
    parent: usize,
    fresh_id: usize,
    label: Vec<u8>,
    ok: bool,
) -> (r: ResponseContent)
    requires
        old(reg).wf(),
    ensures
        final(reg).wf(),
        !ok ==> final(reg).cmap() == old(reg).cmap() && final(reg).lmap() == old(reg).lmap()
            && (r matches ResponseContent::Error { content: ResponseError::SpawnFailed }),
        ok ==> if !old(reg).cmap().dom().contains(fresh_id) && !old(reg).lmap().dom().contains(
            label@,
        ) && fresh_id != 0 && old(reg).cmap().dom().contains(parent) && old(reg).cmap()[
            parent
        ].kind is Space {
            &&& final(reg).cmap() == old(reg).cmap().insert(
                parent,
                ConnV {
                    children: old(reg).cmap()[parent].children.push(fresh_id),
                    ..old(reg).cmap()[parent]
                },
            ).insert(
                fresh_id,
                ConnV {
                    discrim: old(reg).cmap()[parent].discrim.push(fresh_id),
                    parent,
                    children: Seq::empty(),
                    client: false,
                    label: label@,
                    kind: ConnKind::Process,
                    focus: Focus::This,
                    pool: Map::empty(),
                    sups: Map::empty(),
                    sups_state: 0,
                    sups_next: 1,
                    passes: Map::empty(),
                },
            )
            &&& final(reg).lmap() == old(reg).lmap().insert(label@, fresh_id)
            &&& (r matches ResponseContent::Success {
                content: ResponseSuccess::Spawned { discrim },
            } && discrim@ == old(reg).cmap()[parent].discrim.push(fresh_id))
        } else {
            &&& final(reg).cmap() == old(reg).cmap()
            &&& final(reg).lmap() == old(reg).lmap()
            &&& (r matches ResponseContent::Error { content: ResponseError::SpawnFailed })
        },
{
    if !ok {
        return ResponseContent::Error { content: ResponseError::SpawnFailed };
    }
    match reg.create(fresh_id, ParentRef::ById(parent), false, label, ConnKind::Process) {
        Ok(()) => {
            let d = match reg.get(fresh_id) {
                Some(c) => c.discrim.clone(),
                None => {
                    proof {
                        assert(false);
                    }
                    Discriminator::master()
                },
            };
            ResponseContent::Success { content: ResponseSuccess::Spawned { discrim: d } }
        },
        Err(_) => ResponseContent::Error { content: ResponseError::SpawnFailed },
    }
}

} // verus!
