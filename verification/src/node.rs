//! The node: one dispatch point for every decoded message, whichever
//! channel it arrived on. Handshakes feed the membership set, heartbeats
//! are acknowledged, client reads and writes reach the store, and a local
//! write plans one replication send per currently known peer. The caller
//! performs the sends; a peer unreachable at that moment is skipped
//! silently and the write stands regardless.

use crate::membership::{contains_id, handshake_step, HandshakeOutcome, MembershipSet};
use crate::store::KeyValueStore;
use crate::wire::{msg_wf, spec_decode_frame, spec_encode, spec_frame, Address, MessageModel,
    WireMessage};
use vstd::prelude::*;
use vstd::string::StringExecFns;

verus! {

/// One replication message to send to one peer during write fan-out.
pub struct PeerSend {
    pub address: Address,
    pub message: WireMessage,
}

/// What handling one inbound message asks the caller to do.
pub struct Dispatch {
    /// The one reply owed on the connection or channel the message came on.
    pub reply: Option<WireMessage>,
    /// Replication sends, one per known peer, in identity order. Each is
    /// best-effort: an unreachable peer is skipped, the rest still get
    /// theirs, and nothing is retried or queued.
    pub fanout: Vec<PeerSend>,
    /// The identity of a newly registered peer, whose heartbeat task must
    /// start now. A repeated handshake never names one, so no peer ever
    /// has two heartbeat tasks.
    pub start_heartbeat_for: Option<String>,
}

/// One peer-to-peer node: its membership view and its replicated store.
pub struct Node {
    pub membership: MembershipSet,
    pub store: KeyValueStore,
}

impl Node {
    /// Both owned structures are well formed.
    pub open spec fn wf(&self) -> bool {
        &&& self.membership.wf()
        &&& self.store.wf()
    }

    /// A fresh node named `local_identity`, knowing no peers and holding
    /// no bindings.
    pub fn new(local_identity: String) -> (n: Node)
        ensures
            n.wf(),
            n.membership@ == Seq::<crate::membership::PeerModel>::empty(),
            n.membership.local_id() == local_identity@,
            n.store@ == Map::<Seq<char>, Seq<char>>::empty(),
    {
        Node { membership: MembershipSet::new(local_identity), store: KeyValueStore::new() }
    }

    /// The fan-out plan for one write: a replication message for every
    /// peer in the current snapshot, whatever its reachability.
    fn sync_fanout(&self, key: &String, value: &String) -> (r: Vec<PeerSend>)
        ensures
            r@.len() == self.membership@.len(),
            forall|i: int|
                0 <= i < r@.len() ==> (#[trigger] r@[i]).message@ == (MessageModel::Sync {
                    key: key@,
                    value: value@,
                }) && r@[i].address@.host == self.membership@[i].host && r@[i].address@.port
                    == self.membership@[i].port,
    {
        let peers = self.membership.current_peers();
        let mut r: Vec<PeerSend> = Vec::new();
        let mut i: usize = 0;
        while i < peers.len()
            invariant
                i <= peers@.len(),
                peers@.len() == self.membership@.len(),
                forall|k: int| 0 <= k < peers@.len() ==> (#[trigger] peers@[k])@
                    == self.membership@[k],
                r@.len() == i,
                forall|k: int|
                    0 <= k < i ==> (#[trigger] r@[k]).message@ == (MessageModel::Sync {
                        key: key@,
                        value: value@,
                    }) && r@[k].address@.host == self.membership@[k].host && r@[k].address@.port
                        == self.membership@[k].port,
            decreases peers@.len() - i,
        {
            r.push(
                PeerSend {
                    address: peers[i].reachable_address.duplicate(),
                    message: WireMessage::Sync { key: key.clone(), value: value.clone() },
                },
            );
            i = i + 1;
        }
        r
    }

    /// What [`Self::handle_message`] does for each kind of inbound
    /// message, stated over the membership and store before (`pre_m`,
    /// `pre_s`) and after (`post_m`, `post_s`) the call. See that method
    /// for the reading of each case.
    pub open spec fn spec_handled(
        pre_m: Seq<crate::membership::PeerModel>,
        pre_s: Map<Seq<char>, Seq<char>>,
        local: Seq<char>,
        m: MessageModel,
        now: u64,
        post_m: Seq<crate::membership::PeerModel>,
        post_s: Map<Seq<char>, Seq<char>>,
        d: Dispatch,
    ) -> bool {
        match m {
            MessageModel::Heartbeat => {
                &&& post_s == pre_s
                &&& post_m == pre_m
                &&& d.reply matches Some(r) && r@ == MessageModel::HeartbeatAck
                &&& d.fanout@.len() == 0
                &&& d.start_heartbeat_for is None
            },
            MessageModel::SetValue { key, value } => {
                &&& post_s == pre_s.insert(key, value)
                &&& post_m == pre_m
                &&& d.reply matches Some(r) && r@ == (MessageModel::ValueResponse {
                    value: Some("Value set successfully."@),
                })
                &&& d.fanout@.len() == pre_m.len()
                &&& forall|i: int|
                    0 <= i < d.fanout@.len() ==> (#[trigger] d.fanout@[i]).message@
                        == (MessageModel::Sync { key, value }) && d.fanout@[i].address@.host
                        == pre_m[i].host && d.fanout@[i].address@.port == pre_m[i].port
                &&& d.start_heartbeat_for is None
            },
            MessageModel::GetValue { key } => {
                &&& post_s == pre_s
                &&& post_m == pre_m
                &&& d.reply matches Some(r) && r@ == (MessageModel::ValueResponse {
                    value: if pre_s.contains_key(key) {
                        Some(pre_s[key])
                    } else {
                        None
                    },
                })
                &&& d.fanout@.len() == 0
                &&& d.start_heartbeat_for is None
            },
            MessageModel::Sync { key, value } => {
                &&& post_s == pre_s.insert(key, value)
                &&& post_m == pre_m
                &&& d.reply is None
                &&& d.fanout@.len() == 0
                &&& d.start_heartbeat_for is None
            },
            MessageModel::Handshake { node_identity, host, port } => {
                &&& post_m == handshake_step(pre_m, local, node_identity, host, port, now)
                &&& post_s == pre_s
                &&& d.fanout@.len() == 0
                &&& (node_identity == local ==> d.reply is None && d.start_heartbeat_for is None
                    && post_m == pre_m)
                &&& (node_identity != local ==> (d.reply matches Some(r) && r@
                    == MessageModel::Greeting))
                &&& ((d.start_heartbeat_for matches Some(idn) && idn@ == node_identity) <==> (
                node_identity != local && !contains_id(pre_m, node_identity)))
            },
            _ => {
                &&& post_s == pre_s
                &&& post_m == pre_m
                &&& d.reply is None
                &&& d.fanout@.len() == 0
                &&& d.start_heartbeat_for is None
            },
        }
    }

    /// Handles one decoded inbound message, the single dispatch point
    /// keyed by message kind:
    /// - `Heartbeat` is acknowledged and touches nothing;
    /// - `SetValue` is applied locally, acknowledged at once, and plans
    ///   one `Sync` per known peer — the reply never waits on the sends;
    /// - `GetValue` answers from the local map only, `None` when the key
    ///   was never written;
    /// - `Sync` is applied like a local write but plans no further sends,
    ///   so a write crosses the network at most once;
    /// - `Handshake` updates the membership, is greeted unless it carries
    ///   this node's own identity, and names a heartbeat task to start
    ///   only for a peer not seen before;
    /// - anything else is ignored.
    pub fn handle_message(&mut self, m: WireMessage, now: u64) -> (d: Dispatch)
        requires
            old(self).wf(),
        ensures
            final(self).wf(),
            final(self).membership.local_id() == old(self).membership.local_id(),
            Self::spec_handled(
                old(self).membership@,
                old(self).store@,
                old(self).membership.local_id(),
                m@,
                now,
                final(self).membership@,
                final(self).store@,
                d,
            ),
    {
        match m {
            WireMessage::Heartbeat => Dispatch {
                reply: Option::Some(WireMessage::HeartbeatAck),
                fanout: Vec::new(),
                start_heartbeat_for: Option::None,
            },
            WireMessage::SetValue { key, value } => {
                let fanout = self.sync_fanout(&key, &value);
                self.store.set(key, value);
                let ack = String::from_str("Value set successfully.");
                Dispatch {
                    reply: Option::Some(WireMessage::ValueResponse { value: Option::Some(ack) }),
                    fanout,
                    start_heartbeat_for: Option::None,
                }
            },
            WireMessage::GetValue { key } => {
                let value = self.store.get(&key);
                Dispatch {
                    reply: Option::Some(WireMessage::ValueResponse { value }),
                    fanout: Vec::new(),
                    start_heartbeat_for: Option::None,
                }
            },
            WireMessage::Sync { key, value } => {
                self.store.apply_sync(key, value);
                Dispatch {
                    reply: Option::None,
                    fanout: Vec::new(),
                    start_heartbeat_for: Option::None,
                }
            },
            WireMessage::Handshake { node_identity, reachable_address } => {
                let announced = node_identity.clone();
                let outcome = self.membership.on_handshake(node_identity, reachable_address, now);
                match outcome {
                    HandshakeOutcome::SelfSuppressed => Dispatch {
                        reply: Option::None,
                        fanout: Vec::new(),
                        start_heartbeat_for: Option::None,
                    },
                    HandshakeOutcome::KnownPeer => Dispatch {
                        reply: Option::Some(WireMessage::Greeting),
                        fanout: Vec::new(),
                        start_heartbeat_for: Option::None,
                    },
                    HandshakeOutcome::NewPeer => Dispatch {
                        reply: Option::Some(WireMessage::Greeting),
                        fanout: Vec::new(),
                        start_heartbeat_for: Option::Some(announced),
                    },
                }
            },
            _ => Dispatch {
                reply: Option::None,
                fanout: Vec::new(),
                start_heartbeat_for: Option::None,
            },
        }
    }
}

/// The discovery announcement a node broadcasts on its fixed interval:
/// its own identity and the address peers can reach it on.
pub fn announce_message(local_identity: &String, reachable_address: &Address) -> (m: WireMessage)
    ensures
        m@ == (MessageModel::Handshake {
            node_identity: local_identity@,
            host: reachable_address@.host,
            port: reachable_address@.port,
        }),
{
    WireMessage::Handshake {
        node_identity: local_identity.clone(),
        reachable_address: reachable_address.duplicate(),
    }
}

/// Fan-out propagation, the half the wire and the stores decide: the
/// framed replication message for a write of `v` under `k` decodes at the
/// receiving peer to the same message, and applying it leaves any peer
/// store holding `v` under `k`. Carrying the frame to each peer is
/// best-effort transport; a peer it reaches ends up with the value.
pub proof fn lemma_sync_delivery(k: Seq<char>, v: Seq<char>, peer_store: Map<Seq<char>, Seq<char>>)
    requires
        msg_wf(MessageModel::Sync { key: k, value: v }),
        spec_encode(MessageModel::Sync { key: k, value: v }).len() <= crate::MAX_FRAME_LEN,
    ensures
        spec_decode_frame(spec_frame(spec_encode(MessageModel::Sync { key: k, value: v })))
            matches Ok(p) && p.0 == (MessageModel::Sync { key: k, value: v }),
        peer_store.insert(k, v).contains_key(k),
        peer_store.insert(k, v)[k] == v,
{
    crate::wire::lemma_frame_round_trip(MessageModel::Sync { key: k, value: v });
}

} // verus!
