//! The processor: the single authority that consumes decoded connection
//! events and drives the registry. The host's reactor thread feeds it
//! `ProcessorEvent`s; the message thread performs the sends it emits and
//! reports client handles that died under it.

use vstd::prelude::*;

use crate::registry::ConnKind;
use crate::registry::ConnV;
use crate::registry::CreateError;
use crate::registry::Focus;
use crate::registry::ParentRef;
use crate::registry::Registry;
use crate::wire::ConnPacket;
use crate::wire::PacketV;
use crate::wire::RejReason;
use crate::wire::decode_packet;
use crate::wire::encode_packet;
use crate::wire::lemma_frame_of_encode;
use crate::wire::packet_wf_v;
use crate::wire::spec_encode;
use crate::wire::spec_encode_v;
use crate::wire::spec_frame;

verus! {

/// What the host observed on a connection.
pub enum ProcessorEvent {
    /// a frame of bytes arrived on the connection with this token
    Packet { token: usize, data: Vec<u8> },
    /// the connection with this token closed
    Disconnect { token: usize },
    /// a write to this token's client handle failed; the handle is gone
    ClientGone { token: usize },
}

/// Where the message thread should write a payload.
pub enum MessageTarget {
    /// the client handle of one connection
    One(usize),
    /// the client handles of several connections
    Multiple(Vec<usize>),
    /// a one-shot stream to this socket path
    PathStr(Vec<u8>),
}

/// One piece of outward work the processor asks of the host.
pub enum ProcAction {
    /// connect to the new component's client socket and attach the handle
    Connect { id: usize, path: Vec<u8> },
    /// write these bytes to that target
    Send { target: MessageTarget, bytes: Vec<u8> },
}

/// What one processor step decided.
pub struct ProcStep {
    /// outward work, in order
    pub actions: Vec<ProcAction>,
    /// whether the broker should shut down
    pub terminate: bool,
}

/// The handshake outcome for a connection request: the resolved parent, or
/// the reason the request is refused. A taken id or label refuses with
/// `Id`; an unresolvable parent — an unknown label, a label naming the new
/// component itself, or a parent that is no space — refuses with `Parent`.
pub open spec fn handshake_outcome(
    cm: Map<usize, ConnV>,
    lm: Map<Seq<u8>, usize>,
    token: usize,
    label: Seq<u8>,
    parent: Seq<u8>,
) -> Result<usize, RejReason> {
    if cm.dom().contains(token) {
        Err(RejReason::Id)
    } else if lm.dom().contains(label) {
        Err(RejReason::Id)
    } else if parent == label {
        Err(RejReason::Parent)
    } else if !lm.dom().contains(parent) {
        Err(RejReason::Parent)
    } else if !(cm[lm[parent]].kind is Space) {
        Err(RejReason::Parent)
    } else {
        Ok(lm[parent])
    }
}

/// The ids of every connection in the table, in table order: a terminate
/// broadcast reaches each of them.
pub open spec fn table_ids(pairs: Seq<(usize, ConnV)>) -> Seq<usize> {
    pairs.map_values(|p: (usize, ConnV)| p.0)
}

/// What handling one connection packet from `token` means: how the tables
/// move, which actions leave, and whether the broker shuts down. A request
/// runs the handshake; approval goes to the new component's client socket,
/// rejection to the offered path; terminate broadcasts to every connection
/// and stops the broker; inbound approvals and rejections change nothing.
pub open spec fn packet_step_ok(
    cm0: Map<usize, ConnV>,
    lm0: Map<Seq<u8>, usize>,
    pairs0: Seq<(usize, ConnV)>,
    token: usize,
    v: PacketV,
    cm1: Map<usize, ConnV>,
    lm1: Map<Seq<u8>, usize>,
    actions: Seq<ProcAction>,
    terminate: bool,
) -> bool {
    match v {
        PacketV::Terminate => {
            &&& terminate
            &&& cm1 == cm0
            &&& lm1 == lm0
            &&& actions.len() == 1
            &&& (actions[0] matches ProcAction::Send {
                target: MessageTarget::Multiple(ids),
                bytes,
            } && ids@ == table_ids(pairs0) && bytes@ == spec_encode_v(PacketV::Terminate))
        },
        PacketV::ApprConn { echo } => {
            &&& !terminate
            &&& cm1 == cm0
            &&& lm1 == lm0
            &&& actions.len() == 0
        },
        PacketV::RejConn { echo, reason } => {
            &&& !terminate
            &&& cm1 == cm0
            &&& lm1 == lm0
            &&& actions.len() == 0
        },
        PacketV::ReqConn { socket, label, parent } => {
            &&& !terminate
            &&& match handshake_outcome(cm0, lm0, token, label, parent) {
                Result::Ok(pid) => {
                    &&& cm1 == cm0.insert(
                        pid,
                        ConnV { children: cm0[pid].children.push(token), ..cm0[pid] },
                    ).insert(
                        token,
                        ConnV {
                            discrim: cm0[pid].discrim.push(token),
                            parent: pid,
                            children: Seq::empty(),
                            client: false,
                            label,
                            kind: ConnKind::Process,
                            focus: Focus::This,
                            pool: Map::empty(),
                            sups: Map::empty(),
                            sups_state: 0,
                            sups_next: 1,
                            passes: Map::empty(),
                        },
                    )
                    &&& lm1 == lm0.insert(label, token)
                    &&& match socket {
                        Option::Some(s) => actions.len() == 2 && (actions[0] matches
                            ProcAction::Connect { id, path } && id == token && path@ == s.0) && (
                        actions[1] matches ProcAction::Send {
                            target: MessageTarget::One(t),
                            bytes,
                        } && t == token && bytes@ == spec_encode_v(
                            PacketV::ApprConn { echo: s.1 },
                        )),
                        Option::None => actions.len() == 0,
                    }
                },
                Result::Err(reason) => {
                    &&& cm1 == cm0
                    &&& lm1 == lm0
                    &&& match socket {
                        Option::Some(s) => actions.len() == 1 && (actions[0] matches
                            ProcAction::Send { target: MessageTarget::PathStr(p), bytes } && p@
                            == s.0 && bytes@ == spec_encode_v(
                            PacketV::RejConn { echo: s.1, reason },
                        )),
                        Option::None => actions.len() == 0,
                    }
                },
            }
        },
    }
}

/// Handle one already-decoded connection packet from the connection with
/// `token`, exactly as `packet_step_ok` says.
#[verifier::rlimit(100)]
#[verifier::spinoff_prover]
pub fn handle_packet(reg: &mut Registry, token: usize, pkt: ConnPacket) -> (r: ProcStep)
    requires
        old(reg).wf(),
    ensures
        final(reg).wf(),
        packet_step_ok(
            old(reg).cmap(),
            old(reg).lmap(),
            old(reg).cpairs(),
            token,
            pkt@,
            final(reg).cmap(),
            final(reg).lmap(),
            r.actions@,
            r.terminate,
        ),
{
    match pkt {
        ConnPacket::ReqConn { socket, label, parent } => {
            let ghost lv = label@;
            let ghost pv = parent@;
            let ghost cm0 = reg.cmap();
            let ghost lm0 = reg.lmap();
            match reg.create(token, ParentRef::ByLabel(parent), false, label, ConnKind::Process) {
                Ok(()) => {
                    proof {
                        assert(handshake_outcome(cm0, lm0, token, lv, pv) is Ok);
                    }
                    let mut actions: Vec<ProcAction> = Vec::new();
                    match socket {
                        Some((path, echo)) => {
                            let appr = encode_packet(&ConnPacket::ApprConn { echo });
                            actions.push(ProcAction::Connect { id: token, path });
                            actions.push(
                                ProcAction::Send {
                                    target: MessageTarget::One(token),
                                    bytes: appr,
                                },
                            );
                        },
                        None => {
                        },
                    }
                    ProcStep { actions, terminate: false }
                },
                Err(e) => {
                    let reason = match e {
                        CreateError::UnknownParent => RejReason::Parent,
                        CreateError::DuplicateId => RejReason::Id,
                        CreateError::DuplicateLabel => RejReason::Id,
                    };
                    proof {
                        assert(handshake_outcome(cm0, lm0, token, lv, pv)
                            == Result::<usize, RejReason>::Err(reason));
                    }
                    let mut actions: Vec<ProcAction> = Vec::new();
                    match socket {
                        Some((path, echo)) => {
                            let rej = encode_packet(&ConnPacket::RejConn { echo, reason });
                            actions.push(
                                ProcAction::Send {
                                    target: MessageTarget::PathStr(path),
                                    bytes: rej,
                                },
                            );
                        },
                        None => {
                        },
                    }
                    ProcStep { actions, terminate: false }
                },
            }
        },
        ConnPacket::Terminate => {
            let n: usize = reg.conns.len();
            let mut ids: Vec<usize> = Vec::new();
            let mut i: usize = 0;
            while i < n
                invariant
                    n == reg.conns@.len(),
                    reg == old(reg),
                    0 <= i <= n,
                    ids@ == table_ids(reg.cpairs().subrange(0, i as int)),
                decreases n - i,
            {
                proof {
                    assert(reg.cpairs().subrange(0, i + 1).drop_last() =~= reg.cpairs().subrange(
                        0,
                        i as int,
                    ));
                }
                ids.push(reg.conns[i].0);
                proof {
                    assert(ids@ =~= table_ids(reg.cpairs().subrange(0, i + 1)));
                }
                i = i + 1;
            }
            proof {
                assert(reg.cpairs().subrange(0, n as int) =~= reg.cpairs());
            }
            let bytes = encode_packet(&ConnPacket::Terminate);
            let mut actions: Vec<ProcAction> = Vec::new();
            actions.push(ProcAction::Send { target: MessageTarget::Multiple(ids), bytes });
            ProcStep { actions, terminate: true }
        },
        ConnPacket::ApprConn { echo } => {
            ProcStep { actions: Vec::new(), terminate: false }
        },
        ConnPacket::RejConn { echo, reason } => {
            ProcStep { actions: Vec::new(), terminate: false }
        },
    }
}

/// Handle one host event. A frame that encodes a well-formed connection
/// packet is handled as `packet_step_ok` says — in particular, a terminate
/// frame stops the broker — and any other frame is dropped silently. A
/// disconnect removes the component and everything referring to it (a space
/// whose children are still connected stays until they have gone, each with
/// its own disconnect). A dead client handle clears the component's client
/// flag.
pub fn handle_event(reg: &mut Registry, ev: ProcessorEvent) -> (r: ProcStep)
    requires
        old(reg).wf(),
    ensures
        final(reg).wf(),
        match ev {
            ProcessorEvent::Packet { token, data } => (match spec_frame(data@) {
                Option::Some(v) => packet_step_ok(
                    old(reg).cmap(),
                    old(reg).lmap(),
                    old(reg).cpairs(),
                    token,
                    v,
                    final(reg).cmap(),
                    final(reg).lmap(),
                    r.actions@,
                    r.terminate,
                ),
                Option::None => !r.terminate && r.actions@.len() == 0 && final(reg).cmap()
                    == old(reg).cmap() && final(reg).lmap() == old(reg).lmap(),
            }),
            ProcessorEvent::Disconnect { token } => !r.terminate && r.actions@.len() == 0 && (
            if token != 0 && old(reg).cmap().dom().contains(token) {
                let rem = crate::registry::removed_ids(
                    old(reg).cpairs(),
                    old(reg).cmap()[token].discrim,
                );
                final(reg).cmap() == Map::new(
                    |x: usize| old(reg).cmap().dom().contains(x)
                        && !crate::discrim::is_prefix_of(
                        old(reg).cmap()[token].discrim,
                        old(reg).cmap()[x].discrim,
                    ),
                    |x: usize| crate::registry::purge_conn_many(old(reg).cmap()[x], rem),
                ) && final(reg).lmap() == Map::new(
                    |l: Seq<u8>| old(reg).lmap().dom().contains(l) && !rem.contains(
                        old(reg).lmap()[l],
                    ),
                    |l: Seq<u8>| old(reg).lmap()[l],
                )
            } else {
                final(reg).cmap() == old(reg).cmap() && final(reg).lmap() == old(reg).lmap()
            }),
            ProcessorEvent::ClientGone { token } => !r.terminate && r.actions@.len() == 0
                && final(reg).lmap() == old(reg).lmap() && ({
                // no broadcast can reach the dead handle again: the flag
                // clears and every pool forgets the watcher
                let pruned = Map::new(
                    |x: usize| old(reg).cmap().dom().contains(x),
                    |x: usize| ConnV {
                        pool: crate::pool::pool_purged(old(reg).cmap()[x].pool, token),
                        ..old(reg).cmap()[x]
                    },
                );
                final(reg).cmap() == if old(reg).cmap().dom().contains(token) {
                    pruned.insert(token, ConnV { client: false, ..pruned[token] })
                } else {
                    pruned
                }
            }),
        },
{
    match ev {
        ProcessorEvent::Packet { token, data } => {
            match decode_packet(&data) {
                Some(pkt) => {
                    proof {
                        lemma_frame_of_encode(pkt@);
                        assert(spec_frame(data@) == Some(pkt@));
                    }
                    handle_packet(reg, token, pkt)
                },
                None => {
                    proof {
                        assert(spec_frame(data@) is None) by {
                            if exists|v: PacketV|
                                packet_wf_v(v) && (#[trigger] spec_encode_v(v)) == data@ {
                                let w = choose|v: PacketV|
                                    packet_wf_v(v) && (#[trigger] spec_encode_v(v)) == data@;
                                assert(false);
                            }
                        }
                    }
                    ProcStep { actions: Vec::new(), terminate: false }
                },
            }
        },
        ProcessorEvent::Disconnect { token } => {
            let _ = reg.remove_subtree(token);
            ProcStep { actions: Vec::new(), terminate: false }
        },
        ProcessorEvent::ClientGone { token } => {
            reg.prune_watcher(token);
            reg.set_client(token, false);
            ProcStep { actions: Vec::new(), terminate: false }
        },
    }
}

} // verus!
