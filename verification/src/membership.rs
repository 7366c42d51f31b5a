//! The membership set: the peers a node currently believes are live. A
//! discovery handshake registers or refreshes a peer, a heartbeat
//! acknowledgment refreshes it, and a run of consecutive heartbeat misses
//! reaching the limit evicts it. Records are kept in strictly ascending
//! identity order, so no two records share an identity and every snapshot
//! is deterministic.

use crate::wire::Address;
use vstd::prelude::*;

verus! {

/// Number of consecutive heartbeat misses after which a peer is evicted.
pub const MISS_LIMIT: u32 = 3;

/// One known peer: its identity, where it can be reached, when it was
/// last heard from, and how many heartbeats in a row it has missed.
pub struct PeerRecord {
    pub identity: String,
    pub reachable_address: Address,
    pub last_seen: u64,
    pub missed_heartbeats: u32,
}

/// Mathematical model of a [`PeerRecord`].
pub struct PeerModel {
    pub identity: Seq<char>,
    pub host: Seq<char>,
    pub port: u16,
    pub last_seen: u64,
    pub missed_heartbeats: u32,
}

impl View for PeerRecord {
    type V = PeerModel;

    open spec fn view(&self) -> PeerModel {
        PeerModel {
            identity: self.identity@,
            host: self.reachable_address.host@,
            port: self.reachable_address.port,
            last_seen: self.last_seen,
            missed_heartbeats: self.missed_heartbeats,
        }
    }
}

impl PeerRecord {
    /// An identical copy of this record.
    pub fn duplicate(&self) -> (r: PeerRecord)
        ensures
            r@ == self@,
    {
        PeerRecord {
            identity: self.identity.clone(),
            reachable_address: self.reachable_address.duplicate(),
            last_seen: self.last_seen,
            missed_heartbeats: self.missed_heartbeats,
        }
    }
}

/// Strict lexicographic order on character sequences, by code point: the
/// order in which snapshots of the membership set are kept.
pub open spec fn lex_lt(a: Seq<char>, b: Seq<char>) -> bool
    decreases a.len(),
{
    if b.len() == 0 {
        false
    } else if a.len() == 0 {
        true
    } else if (a[0] as u32) < (b[0] as u32) {
        true
    } else if (a[0] as u32) > (b[0] as u32) {
        false
    } else {
        lex_lt(a.drop_first(), b.drop_first())
    }
}

/// The order is irreflexive.
pub proof fn lemma_lex_irrefl(a: Seq<char>)
    ensures
        !lex_lt(a, a),
    decreases a.len(),
{
    if a.len() > 0 {
        lemma_lex_irrefl(a.drop_first());
    }
}

/// Any two sequences are ordered one way or the other, or are equal.
pub proof fn lemma_lex_trichotomy(a: Seq<char>, b: Seq<char>)
    ensures
        lex_lt(a, b) || lex_lt(b, a) || a == b,
    decreases a.len(),
{
    if a.len() == 0 && b.len() == 0 {
        assert(a =~= b);
    } else if a.len() > 0 && b.len() > 0 && (a[0] as u32) == (b[0] as u32) {
        lemma_lex_trichotomy(a.drop_first(), b.drop_first());
        if a.drop_first() == b.drop_first() {
            vstd::utf8::char_u32_cast(a[0], a[0] as u32);
            vstd::utf8::char_u32_cast(b[0], b[0] as u32);
            assert(a[0] == b[0]);
            assert(a.drop_first().len() == a.len() - 1);
            assert(b.drop_first().len() == b.len() - 1);
            assert(a.len() == b.len());
            assert forall|k: int| 0 <= k < a.len() implies a[k] == b[k] by {
                if k > 0 {
                    assert(a[k] == a.drop_first()[k - 1]);
                    assert(b[k] == b.drop_first()[k - 1]);
                }
            }
            assert(a =~= b);
        }
    }
}

/// The order is transitive.
pub proof fn lemma_lex_trans(a: Seq<char>, b: Seq<char>, c: Seq<char>)
    requires
        lex_lt(a, b),
        lex_lt(b, c),
    ensures
        lex_lt(a, c),
    decreases a.len(),
{
    if a.len() > 0 && b.len() > 0 && c.len() > 0 && (a[0] as u32) == (b[0] as u32) && (b[0] as u32)
        == (c[0] as u32) {
        lemma_lex_trans(a.drop_first(), b.drop_first(), c.drop_first());
    }
}

/// Ordered sequences differ.
pub proof fn lemma_lex_neq(a: Seq<char>, b: Seq<char>)
    requires
        lex_lt(a, b),
    ensures
        a != b,
{
    if a == b {
        lemma_lex_irrefl(a);
    }
}

/// Whether the characters of `a` order strictly before those of `b`.
pub fn str_lex_lt(a: &String, b: &String) -> (r: bool)
    ensures
        r == lex_lt(a@, b@),
{
    let alen = a.as_str().unicode_len();
    let blen = b.as_str().unicode_len();
    let mut i: usize = 0;
    proof {
        assert(a@.skip(0) =~= a@);
        assert(b@.skip(0) =~= b@);
    }
    loop
        invariant
            i <= alen,
            i <= blen,
            alen == a@.len(),
            blen == b@.len(),
            lex_lt(a@, b@) == lex_lt(a@.skip(i as int), b@.skip(i as int)),
        decreases alen - i,
    {
        if i == alen {
            return blen > i;
        }
        if i == blen {
            return false;
        }
        let ca = a.as_str().get_char(i);
        let cb = b.as_str().get_char(i);
        if (ca as u32) < (cb as u32) {
            return true;
        }
        if (ca as u32) > (cb as u32) {
            return false;
        }
        proof {
            assert(a@.skip(i as int).drop_first() =~= a@.skip(i as int + 1));
            assert(b@.skip(i as int).drop_first() =~= b@.skip(i as int + 1));
        }
        i = i + 1;
    }
}

/// The order is asymmetric.
pub proof fn lemma_lex_asym(a: Seq<char>, b: Seq<char>)
    requires
        lex_lt(a, b),
    ensures
        !lex_lt(b, a),
{
    if lex_lt(b, a) {
        lemma_lex_trans(a, b, a);
        lemma_lex_irrefl(a);
    }
}

/// Records stand in strictly ascending identity order; in particular no
/// two records share an identity.
pub open spec fn sorted_strict(s: Seq<PeerModel>) -> bool {
    forall|i: int, j: int|
        #![trigger s[i], s[j]]
        0 <= i < j < s.len() ==> lex_lt(s[i].identity, s[j].identity)
}

/// The first index whose record carries `id`, or the length when none does.
pub open spec fn idx_of(s: Seq<PeerModel>, id: Seq<char>) -> int
    decreases s.len(),
{
    if s.len() == 0 {
        0
    } else if s[0].identity == id {
        0
    } else {
        1 + idx_of(s.drop_first(), id)
    }
}

/// Whether some record carries `id`.
pub open spec fn contains_id(s: Seq<PeerModel>, id: Seq<char>) -> bool {
    idx_of(s, id) < s.len()
}

/// What [`idx_of`] yields: a bounded index, a match when in bounds, and no
/// match before it.
pub proof fn lemma_idx_of(s: Seq<PeerModel>, id: Seq<char>)
    ensures
        0 <= idx_of(s, id) <= s.len(),
        idx_of(s, id) < s.len() ==> s[idx_of(s, id)].identity == id,
        forall|k: int| 0 <= k < idx_of(s, id) ==> (#[trigger] s[k]).identity != id,
    decreases s.len(),
{
    if s.len() > 0 && s[0].identity != id {
        lemma_idx_of(s.drop_first(), id);
        assert forall|k: int| 0 <= k < idx_of(s, id) implies (#[trigger] s[k]).identity != id by {
            if k > 0 {
                assert(s.drop_first()[k - 1] == s[k]);
            }
        }
        if idx_of(s, id) < s.len() {
            assert(s[idx_of(s, id)] == s.drop_first()[idx_of(s.drop_first(), id)]);
        }
    }
}

/// A match at `i` with no match before it is what [`idx_of`] finds.
pub proof fn lemma_idx_of_found(s: Seq<PeerModel>, id: Seq<char>, i: int)
    requires
        0 <= i < s.len(),
        s[i].identity == id,
        forall|k: int| 0 <= k < i ==> (#[trigger] s[k]).identity != id,
    ensures
        idx_of(s, id) == i,
    decreases s.len(),
{
    if i > 0 {
        assert(s[0].identity != id);
        assert forall|k: int| 0 <= k < i - 1 implies (#[trigger] s.drop_first()[k]).identity
            != id by {
            assert(s.drop_first()[k] == s[k + 1]);
        }
        assert(s.drop_first()[i - 1] == s[i]);
        lemma_idx_of_found(s.drop_first(), id, i - 1);
    }
}

/// With no match anywhere, [`idx_of`] runs off the end.
pub proof fn lemma_idx_of_absent(s: Seq<PeerModel>, id: Seq<char>)
    requires
        forall|k: int| 0 <= k < s.len() ==> (#[trigger] s[k]).identity != id,
    ensures
        idx_of(s, id) == s.len(),
    decreases s.len(),
{
    if s.len() > 0 {
        assert forall|k: int| 0 <= k < s.drop_first().len() implies (#[trigger] s.drop_first()[
            k
        ]).identity != id by {
            assert(s.drop_first()[k] == s[k + 1]);
        }
        lemma_idx_of_absent(s.drop_first(), id);
    }
}

/// The position at which a new identity keeps the order: the first index
/// whose record orders after `id`, or the length.
pub open spec fn insert_pos(s: Seq<PeerModel>, id: Seq<char>) -> int
    decreases s.len(),
{
    if s.len() == 0 {
        0
    } else if lex_lt(id, s[0].identity) {
        0
    } else {
        1 + insert_pos(s.drop_first(), id)
    }
}

/// A position below which nothing orders after `id`, and at which the
/// record (if any) does, is what [`insert_pos`] finds.
pub proof fn lemma_insert_pos_is(s: Seq<PeerModel>, id: Seq<char>, i: int)
    requires
        0 <= i <= s.len(),
        forall|k: int| 0 <= k < i ==> !lex_lt(id, (#[trigger] s[k]).identity),
        i < s.len() ==> lex_lt(id, s[i].identity),
    ensures
        insert_pos(s, id) == i,
    decreases s.len(),
{
    if i > 0 {
        assert(!lex_lt(id, s[0].identity));
        assert forall|k: int| 0 <= k < i - 1 implies !lex_lt(
            id,
            (#[trigger] s.drop_first()[k]).identity,
        ) by {
            assert(s.drop_first()[k] == s[k + 1]);
        }
        if i < s.len() {
            assert(s.drop_first()[i - 1] == s[i]);
        }
        lemma_insert_pos_is(s.drop_first(), id, i - 1);
    }
}

/// The record a handshake writes: the announced address, seen now, with a
/// clean miss count.
pub open spec fn fresh_peer(id: Seq<char>, host: Seq<char>, port: u16, now: u64) -> PeerModel {
    PeerModel { identity: id, host, port, last_seen: now, missed_heartbeats: 0 }
}

/// What one received handshake does to the membership: nothing for the
/// node's own identity, a refresh of the one record for a known peer, an
/// ordered insertion for a new one.
pub open spec fn handshake_step(
    s: Seq<PeerModel>,
    local: Seq<char>,
    id: Seq<char>,
    host: Seq<char>,
    port: u16,
    now: u64,
) -> Seq<PeerModel> {
    if id == local {
        s
    } else if contains_id(s, id) {
        s.update(idx_of(s, id), fresh_peer(id, host, port, now))
    } else {
        s.insert(insert_pos(s, id), fresh_peer(id, host, port, now))
    }
}

/// What one heartbeat acknowledgment does: refreshes `last_seen` and
/// clears the miss count of the acknowledging peer, if it is still known.
pub open spec fn ack_step(s: Seq<PeerModel>, id: Seq<char>, now: u64) -> Seq<PeerModel> {
    if contains_id(s, id) {
        let i = idx_of(s, id);
        s.update(
            i,
            PeerModel {
                identity: s[i].identity,
                host: s[i].host,
                port: s[i].port,
                last_seen: now,
                missed_heartbeats: 0,
            },
        )
    } else {
        s
    }
}

/// What one heartbeat miss does: counts it, and evicts the peer once the
/// count reaches [`MISS_LIMIT`] consecutive misses.
pub open spec fn miss_step(s: Seq<PeerModel>, id: Seq<char>) -> Seq<PeerModel> {
    if !contains_id(s, id) {
        s
    } else {
        let i = idx_of(s, id);
        if s[i].missed_heartbeats + 1 >= MISS_LIMIT {
            s.remove(i)
        } else {
            s.update(
                i,
                PeerModel {
                    identity: s[i].identity,
                    host: s[i].host,
                    port: s[i].port,
                    last_seen: s[i].last_seen,
                    missed_heartbeats: (s[i].missed_heartbeats + 1) as u32,
                },
            )
        }
    }
}

/// How a received handshake was classified.
#[derive(Clone, Copy, Debug, PartialEq, Eq, Structural)]
pub enum HandshakeOutcome {
    /// The announcement carried this node's own identity and was ignored.
    SelfSuppressed,
    /// A first announcement: the peer was registered, and a heartbeat task
    /// should be started for it.
    NewPeer,
    /// A repeated announcement: the one existing record was refreshed, and
    /// no second heartbeat task may be started.
    KnownPeer,
}

/// The set of peers a node currently believes are live, keyed by identity.
pub struct MembershipSet {
    local_identity: String,
    peers: Vec<PeerRecord>,
}

impl View for MembershipSet {
    type V = Seq<PeerModel>;

    closed spec fn view(&self) -> Seq<PeerModel> {
        self.peers@.map_values(|p: PeerRecord| p@)
    }
}

impl MembershipSet {
    /// The identity of the node that owns this set.
    pub closed spec fn local_id(&self) -> Seq<char> {
        self.local_identity@
    }

    /// Well-formedness: records are strictly ordered by identity (hence
    /// unique), and every held record is below the miss limit.
    pub open spec fn wf(&self) -> bool {
        &&& sorted_strict(self@)
        &&& forall|i: int|
            0 <= i < self@.len() ==> (#[trigger] self@[i]).missed_heartbeats < MISS_LIMIT
    }

    /// An empty membership set for the node named `local_identity`.
    pub fn new(local_identity: String) -> (m: MembershipSet)
        ensures
            m.wf(),
            m@ == Seq::<PeerModel>::empty(),
            m.local_id() == local_identity@,
    {
        let m = MembershipSet { local_identity, peers: Vec::new() };
        proof {
            assert(m@ =~= Seq::<PeerModel>::empty());
        }
        m
    }

    /// Handles one received discovery announcement, as [`handshake_step`]
    /// describes. An announcement of this node's own identity is ignored
    /// and writes no record. The outcome tells the caller whether to greet
    /// the sender and whether a heartbeat task is owed: only a new peer
    /// gets one, so repeated announcements never spawn a second.
    pub fn on_handshake(&mut self, identity: String, address: Address, now: u64) -> (r:
        HandshakeOutcome)
        requires
            old(self).wf(),
        ensures
            final(self).wf(),
            final(self).local_id() == old(self).local_id(),
            final(self)@ == handshake_step(
                old(self)@,
                old(self).local_id(),
                identity@,
                address@.host,
                address@.port,
                now,
            ),
            (r == HandshakeOutcome::SelfSuppressed) <==> identity@ == old(self).local_id(),
            (r == HandshakeOutcome::KnownPeer) <==> (identity@ != old(self).local_id()
                && contains_id(old(self)@, identity@)),
            (r == HandshakeOutcome::NewPeer) <==> (identity@ != old(self).local_id()
                && !contains_id(old(self)@, identity@)),
            identity@ == old(self).local_id() ==> final(self)@ == old(self)@,
            identity@ != old(self).local_id() ==> contains_id(final(self)@, identity@),
            r == HandshakeOutcome::KnownPeer ==> final(self)@.len() == old(self)@.len(),
            r == HandshakeOutcome::NewPeer ==> final(self)@.len() == old(self)@.len() + 1,
    {
        if identity == self.local_identity {
            return HandshakeOutcome::SelfSuppressed;
        }
        let ghost s0 = self@;
        let mut i: usize = 0;
        loop
            invariant
                i <= self.peers@.len(),
                self.peers@ == old(self).peers@,
                self.local_identity@ == old(self).local_identity@,
                s0 == self@,
                forall|k: int| 0 <= k < i ==> lex_lt((#[trigger] s0[k]).identity, identity@),
            ensures
                i <= s0.len(),
                self.peers@ == old(self).peers@,
                self.local_identity@ == old(self).local_identity@,
                s0 == self@,
                forall|k: int| 0 <= k < i ==> lex_lt((#[trigger] s0[k]).identity, identity@),
                i == s0.len() || !lex_lt(s0[i as int].identity, identity@),
            decreases self.peers@.len() - i,
        {
            if i == self.peers.len() {
                break ;
            }
            if !str_lex_lt(&self.peers[i].identity, &identity) {
                break ;
            }
            i = i + 1;
        }
        proof {
            assert forall|k: int| 0 <= k < i implies (#[trigger] s0[k]).identity != identity@ by {
                lemma_lex_neq(s0[k].identity, identity@);
            }
        }
        let found = i < self.peers.len() && self.peers[i].identity == identity;
        if found {
            let ghost gi = i as int;
            self.peers[i] = PeerRecord {
                identity,
                reachable_address: address,
                last_seen: now,
                missed_heartbeats: 0,
            };
            proof {
                lemma_idx_of_found(s0, identity@, gi);
                assert(self@ =~= s0.update(
                    gi,
                    fresh_peer(identity@, address@.host, address@.port, now),
                ));
                assert forall|x: int, y: int| 0 <= x < y < self@.len() implies lex_lt(
                    (#[trigger] self@[x]).identity,
                    (#[trigger] self@[y]).identity,
                ) by {
                    assert(self@[x].identity == s0[x].identity);
                    assert(self@[y].identity == s0[y].identity);
                    assert(lex_lt(s0[x].identity, s0[y].identity));
                }
                assert forall|k: int| 0 <= k < gi implies (#[trigger] self@[k]).identity
                    != identity@ by {
                    assert(self@[k] == s0[k]);
                }
                lemma_idx_of_found(self@, identity@, gi);
            }
            return HandshakeOutcome::KnownPeer;
        }
        let ghost gi = i as int;
        proof {
            if gi < s0.len() {
                lemma_lex_trichotomy(identity@, s0[gi].identity);
                assert(lex_lt(identity@, s0[gi].identity));
            }
            assert forall|k: int| 0 <= k < s0.len() implies (#[trigger] s0[k]).identity
                != identity@ by {
                if k >= gi {
                    if k > gi {
                        assert(lex_lt(s0[gi].identity, s0[k].identity));
                        lemma_lex_trans(identity@, s0[gi].identity, s0[k].identity);
                    }
                    lemma_lex_neq(identity@, s0[k].identity);
                }
            }
            lemma_idx_of_absent(s0, identity@);
            assert forall|k: int| 0 <= k < gi implies !lex_lt(
                identity@,
                (#[trigger] s0[k]).identity,
            ) by {
                lemma_lex_asym(s0[k].identity, identity@);
            }
            lemma_insert_pos_is(s0, identity@, gi);
        }
        self.peers.insert(
            i,
            PeerRecord {
                identity,
                reachable_address: address,
                last_seen: now,
                missed_heartbeats: 0,
            },
        );
        proof {
            let p = fresh_peer(identity@, address@.host, address@.port, now);
            assert(self@ =~= s0.insert(gi, p));
            assert forall|x: int, y: int| 0 <= x < y < self@.len() implies lex_lt(
                (#[trigger] self@[x]).identity,
                (#[trigger] self@[y]).identity,
            ) by {
                if y < gi {
                    assert(self@[x] == s0[x] && self@[y] == s0[y]);
                    assert(lex_lt(s0[x].identity, s0[y].identity));
                } else if y == gi {
                    assert(self@[x] == s0[x]);
                    assert(lex_lt(s0[x].identity, identity@));
                } else {
                    assert(self@[y] == s0[y - 1]);
                    if x < gi {
                        assert(self@[x] == s0[x]);
                        assert(x < y - 1);
                        assert(lex_lt(s0[x].identity, s0[y - 1].identity));
                    } else if x == gi {
                        assert(self@[x].identity == identity@);
                        assert(gi <= y - 1 < s0.len());
                        if gi < s0.len() {
                            if y - 1 == gi {
                                assert(lex_lt(identity@, s0[gi].identity));
                            } else {
                                assert(lex_lt(s0[gi].identity, s0[y - 1].identity));
                                lemma_lex_trans(identity@, s0[gi].identity, s0[y - 1].identity);
                            }
                        }
                    } else {
                        assert(self@[x] == s0[x - 1]);
                        assert(lex_lt(s0[x - 1].identity, s0[y - 1].identity));
                    }
                }
            }
            lemma_idx_of_found(self@, identity@, gi);
        }
        HandshakeOutcome::NewPeer
    }

    /// Handles one heartbeat acknowledgment, as [`ack_step`] describes: a
    /// peer that answered is refreshed and its consecutive-miss count is
    /// cleared; an acknowledgment from an already-evicted peer changes
    /// nothing. An acknowledged peer always remains present.
    pub fn on_heartbeat_ack(&mut self, identity: &String, now: u64)
        requires
            old(self).wf(),
        ensures
            final(self).wf(),
            final(self).local_id() == old(self).local_id(),
            final(self)@ == ack_step(old(self)@, identity@, now),
            final(self)@.len() == old(self)@.len(),
            contains_id(final(self)@, identity@) == contains_id(old(self)@, identity@),
            contains_id(old(self)@, identity@) ==> final(self)@[idx_of(
                final(self)@,
                identity@,
            )].missed_heartbeats == 0,
    {
        let ghost s0 = self@;
        let mut i: usize = 0;
        loop
            invariant
                i <= self.peers@.len(),
                self.peers@ == old(self).peers@,
                self.local_identity@ == old(self).local_identity@,
                s0 == self@,
                forall|k: int| 0 <= k < i ==> (#[trigger] s0[k]).identity != identity@,
            ensures
                i <= s0.len(),
                self.peers@ == old(self).peers@,
                self.local_identity@ == old(self).local_identity@,
                s0 == self@,
                forall|k: int| 0 <= k < i ==> (#[trigger] s0[k]).identity != identity@,
                i == s0.len() || s0[i as int].identity == identity@,
            decreases self.peers@.len() - i,
        {
            if i == self.peers.len() {
                break ;
            }
            if self.peers[i].identity == *identity {
                break ;
            }
            i = i + 1;
        }
        if i == self.peers.len() {
            proof {
                lemma_idx_of_absent(s0, identity@);
            }
            return ;
        }
        let ghost gi = i as int;
        self.peers[i].last_seen = now;
        self.peers[i].missed_heartbeats = 0;
        proof {
            lemma_idx_of_found(s0, identity@, gi);
            assert(self@ =~= ack_step(s0, identity@, now));
            assert forall|x: int, y: int| 0 <= x < y < self@.len() implies lex_lt(
                (#[trigger] self@[x]).identity,
                (#[trigger] self@[y]).identity,
            ) by {
                assert(self@[x].identity == s0[x].identity);
                assert(self@[y].identity == s0[y].identity);
                assert(lex_lt(s0[x].identity, s0[y].identity));
            }
            assert forall|k: int| 0 <= k < gi implies (#[trigger] self@[k]).identity
                != identity@ by {
                assert(self@[k] == s0[k]);
            }
            lemma_idx_of_found(self@, identity@, gi);
        }
    }

    /// Handles one heartbeat miss, as [`miss_step`] describes: a missed
    /// connection or acknowledgment timeout raises the peer's
    /// consecutive-miss count, and the count reaching [`MISS_LIMIT`]
    /// evicts the peer. The result says whether the peer was evicted, so
    /// the caller can end its heartbeat task; re-entry then requires a
    /// fresh handshake.
    pub fn on_heartbeat_miss(&mut self, identity: &String) -> (evicted: bool)
        requires
            old(self).wf(),
        ensures
            final(self).wf(),
            final(self).local_id() == old(self).local_id(),
            final(self)@ == miss_step(old(self)@, identity@),
            evicted <==> (contains_id(old(self)@, identity@) && old(self)@[idx_of(
                old(self)@,
                identity@,
            )].missed_heartbeats + 1 >= MISS_LIMIT),
            evicted ==> !contains_id(final(self)@, identity@),
            (!evicted && contains_id(old(self)@, identity@)) ==> contains_id(
                final(self)@,
                identity@,
            ),
    {
        let ghost s0 = self@;
        let mut i: usize = 0;
        loop
            invariant
                i <= self.peers@.len(),
                self.peers@ == old(self).peers@,
                self.local_identity@ == old(self).local_identity@,
                s0 == self@,
                forall|k: int| 0 <= k < i ==> (#[trigger] s0[k]).identity != identity@,
            ensures
                i <= s0.len(),
                self.peers@ == old(self).peers@,
                self.local_identity@ == old(self).local_identity@,
                s0 == self@,
                forall|k: int| 0 <= k < i ==> (#[trigger] s0[k]).identity != identity@,
                i == s0.len() || s0[i as int].identity == identity@,
            decreases self.peers@.len() - i,
        {
            if i == self.peers.len() {
                break ;
            }
            if self.peers[i].identity == *identity {
                break ;
            }
            i = i + 1;
        }
        if i == self.peers.len() {
            proof {
                lemma_idx_of_absent(s0, identity@);
            }
            return false;
        }
        let ghost gi = i as int;
        proof {
            lemma_idx_of_found(s0, identity@, gi);
        }
        let m = self.peers[i].missed_heartbeats;
        if m + 1 >= MISS_LIMIT {
            self.peers.remove(i);
            proof {
                assert(self@ =~= s0.remove(gi));
                assert forall|x: int, y: int| 0 <= x < y < self@.len() implies lex_lt(
                    (#[trigger] self@[x]).identity,
                    (#[trigger] self@[y]).identity,
                ) by {
                    let x0 = if x < gi { x } else { x + 1 };
                    let y0 = if y < gi { y } else { y + 1 };
                    assert(self@[x] == s0[x0]);
                    assert(self@[y] == s0[y0]);
                    assert(lex_lt(s0[x0].identity, s0[y0].identity));
                }
                assert forall|k: int| 0 <= k < self@.len() implies (#[trigger] self@[k]).identity
                    != identity@ by {
                    if k < gi {
                        assert(self@[k] == s0[k]);
                        assert(lex_lt(s0[k].identity, s0[gi].identity));
                        lemma_lex_neq(s0[k].identity, s0[gi].identity);
                    } else {
                        assert(self@[k] == s0[k + 1]);
                        assert(lex_lt(s0[gi].identity, s0[k + 1].identity));
                        lemma_lex_neq(s0[gi].identity, s0[k + 1].identity);
                    }
                }
                lemma_idx_of_absent(self@, identity@);
            }
            return true;
        }
        self.peers[i].missed_heartbeats = m + 1;
        proof {
            assert(self@ =~= miss_step(s0, identity@));
            assert forall|x: int, y: int| 0 <= x < y < self@.len() implies lex_lt(
                (#[trigger] self@[x]).identity,
                (#[trigger] self@[y]).identity,
            ) by {
                assert(self@[x].identity == s0[x].identity);
                assert(self@[y].identity == s0[y].identity);
                assert(lex_lt(s0[x].identity, s0[y].identity));
            }
            assert forall|k: int| 0 <= k < gi implies (#[trigger] self@[k]).identity
                != identity@ by {
                assert(self@[k] == s0[k]);
            }
            lemma_idx_of_found(self@, identity@, gi);
        }
        false
    }

    /// A point-in-time snapshot of all known peers, in ascending identity
    /// order: what write fan-out and the heartbeat scheduler iterate over.
    pub fn current_peers(&self) -> (r: Vec<PeerRecord>)
        ensures
            r@.len() == self@.len(),
            forall|i: int| 0 <= i < r@.len() ==> (#[trigger] r@[i])@ == self@[i],
    {
        let mut r: Vec<PeerRecord> = Vec::new();
        let mut i: usize = 0;
        while i < self.peers.len()
            invariant
                i <= self.peers@.len(),
                r@.len() == i,
                forall|k: int| 0 <= k < i ==> (#[trigger] r@[k])@ == self@[k],
            decreases self.peers@.len() - i,
        {
            r.push(self.peers[i].duplicate());
            i = i + 1;
        }
        r
    }
}

/// Self-suppression: a handshake announcing the node's own identity
/// leaves the membership exactly as it was; no record is created for the
/// node itself.
pub proof fn lemma_self_suppression(
    s: Seq<PeerModel>,
    local: Seq<char>,
    host: Seq<char>,
    port: u16,
    now: u64,
)
    ensures
        handshake_step(s, local, local, host, port, now) == s,
{
}

/// [`insert_pos`] stays within the sequence.
proof fn lemma_insert_pos_bounds(s: Seq<PeerModel>, id: Seq<char>)
    ensures
        0 <= insert_pos(s, id) <= s.len(),
    decreases s.len(),
{
    if s.len() > 0 && !lex_lt(id, s[0].identity) {
        lemma_insert_pos_bounds(s.drop_first(), id);
    }
}

/// One handshake from a foreign identity leaves exactly one record for
/// it, freshly written; only an unknown identity grows the set.
proof fn lemma_handshake_registers(
    s: Seq<PeerModel>,
    local: Seq<char>,
    id: Seq<char>,
    host: Seq<char>,
    port: u16,
    now: u64,
)
    requires
        id != local,
    ensures
        contains_id(handshake_step(s, local, id, host, port, now), id),
        handshake_step(s, local, id, host, port, now)[idx_of(
            handshake_step(s, local, id, host, port, now),
            id,
        )] == fresh_peer(id, host, port, now),
        contains_id(s, id) ==> handshake_step(s, local, id, host, port, now).len() == s.len(),
        !contains_id(s, id) ==> handshake_step(s, local, id, host, port, now).len() == s.len() + 1,
{
    let s1 = handshake_step(s, local, id, host, port, now);
    lemma_idx_of(s, id);
    if contains_id(s, id) {
        let i = idx_of(s, id);
        assert forall|k: int| 0 <= k < i implies (#[trigger] s1[k]).identity != id by {
            assert(s1[k] == s[k]);
        }
        lemma_idx_of_found(s1, id, i);
    } else {
        lemma_insert_pos_bounds(s, id);
        let i = insert_pos(s, id);
        assert forall|k: int| 0 <= k < i implies (#[trigger] s1[k]).identity != id by {
            assert(s1[k] == s[k]);
        }
        lemma_idx_of_found(s1, id, i);
    }
}

/// Idempotent discovery: repeated handshakes from one identity keep one
/// record for it, refresh `last_seen` to the latest announcement, and
/// never create a second record.
pub proof fn lemma_handshake_idempotent(
    s: Seq<PeerModel>,
    local: Seq<char>,
    id: Seq<char>,
    host1: Seq<char>,
    port1: u16,
    t1: u64,
    host2: Seq<char>,
    port2: u16,
    t2: u64,
)
    requires
        id != local,
    ensures
        ({
            let s1 = handshake_step(s, local, id, host1, port1, t1);
            let s2 = handshake_step(s1, local, id, host2, port2, t2);
            &&& contains_id(s1, id)
            &&& s2.len() == s1.len()
            &&& contains_id(s2, id)
            &&& s2[idx_of(s2, id)].last_seen == t2
        }),
{
    let s1 = handshake_step(s, local, id, host1, port1, t1);
    lemma_handshake_registers(s, local, id, host1, port1, t1);
    lemma_handshake_registers(s1, local, id, host2, port2, t2);
}

/// Heartbeat misses piling up with no acknowledgment in between.
pub open spec fn miss_steps(s: Seq<PeerModel>, id: Seq<char>, k: nat) -> Seq<PeerModel>
    decreases k,
{
    if k == 0 {
        s
    } else {
        miss_steps(miss_step(s, id), id, (k - 1) as nat)
    }
}

/// An absent peer stays absent under further misses.
proof fn lemma_miss_steps_absent(s: Seq<PeerModel>, id: Seq<char>, k: nat)
    requires
        !contains_id(s, id),
    ensures
        miss_steps(s, id, k) == s,
    decreases k,
{
    if k > 0 {
        lemma_miss_steps_absent(s, id, (k - 1) as nat);
    }
}

/// One counted miss below the limit keeps the peer, at the same place,
/// with one more miss on record.
proof fn lemma_miss_step_below(s: Seq<PeerModel>, id: Seq<char>)
    requires
        sorted_strict(s),
        contains_id(s, id),
        s[idx_of(s, id)].missed_heartbeats + 1 < MISS_LIMIT,
    ensures
        ({
            let s1 = miss_step(s, id);
            &&& sorted_strict(s1)
            &&& contains_id(s1, id)
            &&& idx_of(s1, id) == idx_of(s, id)
            &&& s1[idx_of(s1, id)].missed_heartbeats == s[idx_of(s, id)].missed_heartbeats + 1
            &&& s1[idx_of(s1, id)].identity == id
            &&& s1.len() == s.len()
        }),
{
    let s1 = miss_step(s, id);
    let i = idx_of(s, id);
    lemma_idx_of(s, id);
    assert forall|x: int, y: int| 0 <= x < y < s1.len() implies lex_lt(
        (#[trigger] s1[x]).identity,
        (#[trigger] s1[y]).identity,
    ) by {
        assert(s1[x].identity == s[x].identity);
        assert(s1[y].identity == s[y].identity);
        assert(lex_lt(s[x].identity, s[y].identity));
    }
    assert forall|k: int| 0 <= k < i implies (#[trigger] s1[k]).identity != id by {
        assert(s1[k] == s[k]);
    }
    lemma_idx_of_found(s1, id, i);
}

/// The miss that reaches the limit evicts the peer: no record for it is
/// left behind.
proof fn lemma_miss_step_evicts(s: Seq<PeerModel>, id: Seq<char>)
    requires
        sorted_strict(s),
        contains_id(s, id),
        s[idx_of(s, id)].missed_heartbeats + 1 >= MISS_LIMIT,
    ensures
        !contains_id(miss_step(s, id), id),
{
    let s1 = miss_step(s, id);
    let i = idx_of(s, id);
    lemma_idx_of(s, id);
    assert(s1 == s.remove(i));
    assert forall|k: int| 0 <= k < s1.len() implies (#[trigger] s1[k]).identity != id by {
        if k < i {
            assert(s1[k] == s[k]);
            assert(lex_lt(s[k].identity, s[i].identity));
            lemma_lex_neq(s[k].identity, s[i].identity);
        } else {
            assert(s1[k] == s[k + 1]);
            assert(lex_lt(s[i].identity, s[k + 1].identity));
            lemma_lex_neq(s[i].identity, s[k + 1].identity);
        }
    }
    lemma_idx_of_absent(s1, id);
}

/// Failure detection, eviction half: once enough consecutive misses pile
/// up to reach [`MISS_LIMIT`], the peer is no longer in the membership.
pub proof fn lemma_eviction_after_misses(s: Seq<PeerModel>, id: Seq<char>, k: nat)
    requires
        sorted_strict(s),
        contains_id(s, id),
        k >= 1,
        s[idx_of(s, id)].missed_heartbeats + k >= MISS_LIMIT,
    ensures
        !contains_id(miss_steps(s, id, k), id),
    decreases k,
{
    let s1 = miss_step(s, id);
    if s[idx_of(s, id)].missed_heartbeats + 1 >= MISS_LIMIT {
        lemma_miss_step_evicts(s, id);
        lemma_miss_steps_absent(s1, id, (k - 1) as nat);
    } else {
        lemma_miss_step_below(s, id);
        lemma_eviction_after_misses(s1, id, (k - 1) as nat);
    }
}

/// Failure detection, survival half: a present peer outlives any run of
/// misses that stays below the limit; its record only counts them.
pub proof fn lemma_survives_misses_below_limit(s: Seq<PeerModel>, id: Seq<char>, k: nat)
    requires
        sorted_strict(s),
        contains_id(s, id),
        s[idx_of(s, id)].missed_heartbeats + k < MISS_LIMIT,
    ensures
        ({
            let sk = miss_steps(s, id, k);
            &&& sorted_strict(sk)
            &&& contains_id(sk, id)
            &&& sk[idx_of(sk, id)].missed_heartbeats == s[idx_of(s, id)].missed_heartbeats + k
        }),
    decreases k,
{
    if k > 0 {
        lemma_miss_step_below(s, id);
        lemma_survives_misses_below_limit(miss_step(s, id), id, (k - 1) as nat);
    }
}

/// Failure detection, acknowledgment half: a peer that answers stays
/// present and its consecutive-miss count starts over at zero, so only
/// [`MISS_LIMIT`] misses in a row can ever evict it.
pub proof fn lemma_responsive_peer_stays(s: Seq<PeerModel>, id: Seq<char>, now: u64)
    requires
        sorted_strict(s),
        contains_id(s, id),
    ensures
        ({
            let s1 = ack_step(s, id, now);
            &&& sorted_strict(s1)
            &&& contains_id(s1, id)
            &&& s1.len() == s.len()
            &&& s1[idx_of(s1, id)].missed_heartbeats == 0
            &&& s1[idx_of(s1, id)].last_seen == now
        }),
{
    let s1 = ack_step(s, id, now);
    let i = idx_of(s, id);
    lemma_idx_of(s, id);
    assert forall|x: int, y: int| 0 <= x < y < s1.len() implies lex_lt(
        (#[trigger] s1[x]).identity,
        (#[trigger] s1[y]).identity,
    ) by {
        assert(s1[x].identity == s[x].identity);
        assert(s1[y].identity == s[y].identity);
        assert(lex_lt(s[x].identity, s[y].identity));
    }
    assert forall|k: int| 0 <= k < i implies (#[trigger] s1[k]).identity != id by {
        assert(s1[k] == s[k]);
    }
    lemma_idx_of_found(s1, id, i);
}

} // verus!
