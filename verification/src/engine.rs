//! Protocol engine: the per-peer state machine and message dispatcher, and
//! the liveness sweep. All outward effects are returned as actions for the
//! hosting process to perform through the transport layer.

use crate::chain::{spec_import, Chain};
use crate::random::sample_indices;
use crate::table::{same_except, Table};
use crate::wire::{
    dec_message, Block, BlockId, BlockRequest, BlockResponse, Message, MessageBody, MessageView,
    Status,
};
use vstd::prelude::*;

verus! {

/// Seconds a handshake or an outstanding block request may stay unanswered
/// before the sweep flags the peer.
pub const REQUEST_WAIT: u64 = 60;

/// Hard cap on the entries served in one block response, whatever the
/// requester claims as its own limit.
pub const MAX_BLOCK_DATA_RESPONSE: u64 = 128;

/// Current version of the protocol; compared for exact equality.
pub const CURRENT_VERSION: u64 = 1;

/// Why a peer is reported as misbehaving.
#[derive(Clone, Copy, Debug, PartialEq, Eq)]
pub enum BadReason {
    IncompatibleVersion,
    GenesisMismatch,
    InvalidMessageFormat,
    UnexpectedResponse,
}

/// Severity of a report to the transport layer.
#[derive(Clone, Copy, Debug, PartialEq, Eq)]
pub enum Severity {
    Timeout,
    Bad(BadReason),
}

/// An effect the engine asks the hosting process to perform.
#[derive(Clone, Debug, PartialEq, Eq)]
pub enum Action {
    /// Encode `message` and send it to `peer` through the transport layer.
    Send { peer: u64, message: Message },
    /// Report `peer` to the transport layer.
    Report { peer: u64, severity: Severity },
    /// Hand a transaction payload to the pluggable transaction handler.
    HandleTransaction { payload: Vec<u8> },
}

/// A transaction as the engine relays it: anything that can say which bytes
/// it puts on the wire.
pub trait Transaction {
    spec fn bytes_view(&self) -> Seq<u8>;

    fn to_bytes(&self) -> (r: Vec<u8>)
        ensures
            r@ == self.bytes_view(),
    ;
}

impl Transaction for Vec<u8> {
    open spec fn bytes_view(&self) -> Seq<u8> {
        self@
    }

    fn to_bytes(&self) -> (r: Vec<u8>) {
        let mut r: Vec<u8> = Vec::new();
        let mut i: usize = 0;
        while i < self.len()
            invariant
                i <= self@.len(),
                r@ == self@.subrange(0, i as int),
            decreases self@.len() - i,
        {
            r.push(self[i]);
            proof {
                assert(self@.subrange(0, i as int) + seq![self@[i as int]] =~= self@.subrange(
                    0,
                    i as int + 1,
                ));
            }
            i = i + 1;
        }
        proof {
            assert(self@.subrange(0, self@.len() as int) =~= self@);
        }
        r
    }
}

/// Identifier of this protocol as the transport layer names protocols.
pub type ProtocolId = [u8; 3];

#[derive(Clone, Copy)]
pub struct ProtocolConfig {
    pub protocol_id: ProtocolId,
}

impl ProtocolConfig {
    pub fn new(protocol_id: ProtocolId) -> (c: ProtocolConfig)
        ensures
            c.protocol_id == protocol_id,
    {
        ProtocolConfig { protocol_id }
    }
}

impl Default for ProtocolConfig {
    fn default() -> (c: Self)
        ensures
            c.protocol_id@ == seq![0u8, 0u8, 0u8],
    {
        let c = ProtocolConfig::new([0u8, 0u8, 0u8]);
        proof {
            assert(c.protocol_id@ =~= seq![0u8, 0u8, 0u8]);
        }
        c
    }
}

/// One connected, validated peer as the engine tracks it.
#[derive(Clone, Copy, Debug, PartialEq, Eq)]
pub struct PeerInfo {
    pub protocol_version: u64,
    pub best_hash: u64,
    pub best_number: u64,
    pub request_timestamp: Option<u64>,
    pub block_request: Option<BlockRequest>,
    pub next_request_id: u64,
}

impl PeerInfo {
    /// A request timestamp is recorded iff a request is outstanding.
    pub open spec fn wf(self) -> bool {
        self.request_timestamp is Some <==> self.block_request is Some
    }
}

/// The upper bound this node applies to one response: the requester's limit,
/// itself capped by the hard cap.
pub open spec fn request_cap(r: BlockRequest) -> u64 {
    let m = match r.max {
        Some(m) => m,
        None => u64::MAX,
    };
    if m < MAX_BLOCK_DATA_RESPONSE {
        m
    } else {
        MAX_BLOCK_DATA_RESPONSE
    }
}

pub open spec fn id_matches(b: Block, id: BlockId) -> bool {
    match id {
        BlockId::Number(n) => b.number == n,
        BlockId::Hash(h) => b.hash == h,
    }
}

/// Whether block `b` closes the requested range.
pub open spec fn reach_end(b: Block, to: Option<BlockId>) -> bool {
    match to {
        Some(id) => id_matches(b, id),
        None => false,
    }
}

/// The walk that serves a block request: nothing when the budget is zero,
/// else collect the block at `i`, stop once the budget is spent or the range
/// end was collected, else move up one height.
pub open spec fn serve_walk(s: Seq<Block>, i: int, budget: u64, to: Option<BlockId>) -> Seq<Block>
    decreases s.len() - i,
{
    if i < 0 || i >= s.len() || budget == 0 {
        Seq::empty()
    } else {
        let b = s[i];
        if budget <= 1 {
            seq![b]
        } else if reach_end(b, to) {
            seq![b]
        } else {
            seq![b] + serve_walk(s, i + 1, (budget - 1) as u64, to)
        }
    }
}

/// Everything this node serves for one block request.
pub open spec fn served_blocks(c: Chain, r: BlockRequest) -> Seq<Block> {
    match c.spec_resolve(r.from) {
        Some(i) => serve_walk(c.blocks@, i, request_cap(r), r.to),
        None => Seq::empty(),
    }
}

proof fn lemma_serve_walk_len(s: Seq<Block>, i: int, budget: u64, to: Option<BlockId>)
    ensures
        serve_walk(s, i, budget, to).len() <= budget,
    decreases s.len() - i,
{
    if i < 0 || i >= s.len() || budget == 0 {
    } else if budget > 1 && !reach_end(s[i], to) {
        lemma_serve_walk_len(s, i + 1, (budget - 1) as u64, to);
    }
}

/// Law: a response never carries more than the hard cap, nor more than the
/// requester's own limit where one was given.
pub proof fn lemma_served_bounded(c: Chain, r: BlockRequest)
    ensures
        served_blocks(c, r).len() <= MAX_BLOCK_DATA_RESPONSE,
        match r.max {
            Some(m) => served_blocks(c, r).len() <= m,
            None => true,
        },
{
    match c.spec_resolve(r.from) {
        Some(i) => {
            lemma_serve_walk_len(c.blocks@, i, request_cap(r), r.to);
        }
        None => {}
    }
}

proof fn lemma_serve_walk_full_range(s: Seq<Block>, n: int, t: int, budget: u64)
    requires
        forall|i: int| 0 <= i < s.len() ==> s[i].number == i,
        0 <= n <= t < s.len(),
        t <= u64::MAX,
        budget >= t - n + 1,
    ensures
        serve_walk(s, n, budget, Some(BlockId::Number(t as u64))) == s.subrange(n, t + 1),
    decreases t - n,
{
    let to = Some(BlockId::Number(t as u64));
    assert(s[n].number == n);
    if n == t {
        assert(reach_end(s[n], to));
        assert(seq![s[n]] =~= s.subrange(n, t + 1));
    } else {
        assert(!reach_end(s[n], to));
        assert(budget > 1);
        lemma_serve_walk_full_range(s, n + 1, t, (budget - 1) as u64);
        assert(seq![s[n]] + s.subrange(n + 1, t + 1) =~= s.subrange(n, t + 1));
    }
}

/// Law: a request for a range fully available in storage, whose size is
/// within the cap, is served with every block of that range in order.
pub proof fn lemma_full_range_served(c: Chain, r: BlockRequest, n: u64, t: u64)
    requires
        c.wf(),
        r.from == BlockId::Number(n),
        r.to == Some(BlockId::Number(t)),
        n <= t < c.blocks@.len(),
        t - n + 1 <= request_cap(r),
    ensures
        served_blocks(c, r) == c.blocks@.subrange(n as int, t as int + 1),
{
    assert(c.spec_resolve(r.from) == Some(n as int));
    lemma_serve_walk_full_range(c.blocks@, n as int, t as int, request_cap(r));
}

proof fn lemma_serve_walk_to_hash(s: Seq<Block>, n: int, t: int, h: u64, budget: u64)
    requires
        0 <= n <= t < s.len(),
        s[t].hash == h,
        forall|j: int| n <= j < t ==> s[j].hash != h,
        budget >= t - n + 1,
    ensures
        serve_walk(s, n, budget, Some(BlockId::Hash(h))) == s.subrange(n, t + 1),
    decreases t - n,
{
    let to = Some(BlockId::Hash(h));
    if n == t {
        assert(reach_end(s[n], to));
        assert(seq![s[n]] =~= s.subrange(n, t + 1));
    } else {
        assert(s[n].hash != h);
        assert(!reach_end(s[n], to));
        assert(budget > 1);
        lemma_serve_walk_to_hash(s, n + 1, t, h, (budget - 1) as u64);
        assert(seq![s[n]] + s.subrange(n + 1, t + 1) =~= s.subrange(n, t + 1));
    }
}

/// Law: a request whose end is named by hash is served every block from the
/// start up to and including the first block at or after the start carrying
/// that hash, when that range is in storage and within the cap.
pub proof fn lemma_range_to_hash_served(c: Chain, r: BlockRequest, n: u64, t: int, h: u64)
    requires
        c.wf(),
        r.from == BlockId::Number(n),
        r.to == Some(BlockId::Hash(h)),
        n <= t < c.blocks@.len(),
        c.blocks@[t].hash == h,
        forall|j: int| n <= j < t ==> c.blocks@[j].hash != h,
        t - n + 1 <= request_cap(r),
    ensures
        served_blocks(c, r) == c.blocks@.subrange(n as int, t + 1),
{
    assert(c.spec_resolve(r.from) == Some(n as int));
    lemma_serve_walk_to_hash(c.blocks@, n as int, t, h, request_cap(r));
}

/// The catch-up request issued to a peer that is ahead of us.
pub open spec fn catchup_request(st: Status, our_best: int) -> BlockRequest {
    BlockRequest {
        id: 0,
        from: BlockId::Number(our_best as u64),
        to: Some(BlockId::Number(st.best_number)),
        max: None,
    }
}

/// The record a freshly validated peer gets: awaiting blocks with a pending
/// request iff it is ahead of us.
pub open spec fn promoted_info(st: Status, our_best: int, now: u64) -> PeerInfo {
    if st.best_number > our_best {
        PeerInfo {
            protocol_version: st.version,
            best_hash: st.best_hash,
            best_number: st.best_number,
            request_timestamp: Some(now),
            block_request: Some(catchup_request(st, our_best)),
            next_request_id: 1,
        }
    } else {
        PeerInfo {
            protocol_version: st.version,
            best_hash: st.best_hash,
            best_number: st.best_number,
            request_timestamp: None,
            block_request: None,
            next_request_id: 0,
        }
    }
}

/// What receiving a status message does: a mismatch is reported and changes
/// nothing; a valid status moves the peer from the handshake set into the
/// peer table exactly once, issuing a catch-up request iff the peer is ahead.
pub open spec fn status_transition(
    pre: Protocol,
    post: Protocol,
    peer: u64,
    st: Status,
    now: u64,
    acts: Seq<Action>,
) -> bool {
    if st.version != CURRENT_VERSION {
        post == pre && acts == seq![
            Action::Report { peer, severity: Severity::Bad(BadReason::IncompatibleVersion) },
        ]
    } else if st.genesis_hash != pre.chain.spec_genesis_hash() {
        post == pre && acts == seq![
            Action::Report { peer, severity: Severity::Bad(BadReason::GenesisMismatch) },
        ]
    } else {
        let our_best = pre.chain.spec_best_number();
        &&& post.config == pre.config
        &&& post.chain == pre.chain
        &&& !post.handshaking_peers.contains(peer)
        &&& same_except(post.handshaking_peers, pre.handshaking_peers, peer)
        &&& post.peer_info.contains(peer)
        &&& post.peer_info.val_of(peer) == promoted_info(st, our_best, now)
        &&& same_except(post.peer_info, pre.peer_info, peer)
        &&& acts == (if st.best_number > our_best {
            seq![
                Action::Send {
                    peer,
                    message: Message {
                        body: MessageBody::BlockRequest(catchup_request(st, our_best)),
                    },
                },
            ]
        } else {
            Seq::<Action>::empty()
        })
    }
}

/// What serving a block request emits: exactly one response to the
/// requester, under the request's id, carrying the served walk.
pub open spec fn block_request_served(
    pre: Protocol,
    peer: u64,
    r: BlockRequest,
    acts: Seq<Action>,
) -> bool {
    acts.len() == 1 && match acts[0] {
        Action::Send { peer: p, message: m } => p == peer && match m.body {
            MessageBody::BlockResponse(resp) => resp.id == r.id && resp.blocks@ == served_blocks(
                pre.chain,
                r,
            ),
            _ => false,
        },
        _ => false,
    }
}

/// What receiving a block response does: unsolicited responses are reported
/// and discarded; a stale id is silently ignored with the pending request
/// left outstanding; a matching id clears the pending request and imports
/// the blocks.
pub open spec fn block_response_transition(
    pre: Protocol,
    post: Protocol,
    peer: u64,
    resp_id: u64,
    resp_blocks: Seq<Block>,
    acts: Seq<Action>,
) -> bool {
    if !pre.peer_info.contains(peer) || pre.peer_info.val_of(peer).block_request is None {
        post == pre && acts == seq![
            Action::Report { peer, severity: Severity::Bad(BadReason::UnexpectedResponse) },
        ]
    } else {
        let info = pre.peer_info.val_of(peer);
        let req = info.block_request->Some_0;
        if req.id != resp_id {
            post == pre && acts == Seq::<Action>::empty()
        } else {
            &&& post.config == pre.config
            &&& post.handshaking_peers == pre.handshaking_peers
            &&& post.peer_info.contains(peer)
            &&& post.peer_info.val_of(peer) == PeerInfo {
                request_timestamp: None,
                block_request: None,
                ..info
            }
            &&& same_except(post.peer_info, pre.peer_info, peer)
            &&& post.chain.blocks@ == spec_import(pre.chain.blocks@, resp_blocks)
            &&& acts == Seq::<Action>::empty()
        }
    }
}

/// Law: a valid status with matching version and genesis moves the sending
/// peer out of the handshake set and into the peer table exactly once, ending
/// synchronized if its height is at most ours and awaiting blocks if it is
/// ahead.
pub proof fn lemma_valid_status_promotes(
    pre: Protocol,
    post: Protocol,
    peer: u64,
    st: Status,
    now: u64,
    acts: Seq<Action>,
)
    requires
        status_transition(pre, post, peer, st, now, acts),
        st.version == CURRENT_VERSION,
        st.genesis_hash == pre.chain.spec_genesis_hash(),
    ensures
        !post.handshaking_peers.contains(peer),
        post.peer_info.contains(peer),
        st.best_number > pre.chain.spec_best_number() ==> post.peer_info.val_of(
            peer,
        ).block_request == Some(catchup_request(st, pre.chain.spec_best_number())),
        st.best_number <= pre.chain.spec_best_number() ==> post.peer_info.val_of(
            peer,
        ).block_request is None && post.peer_info.val_of(peer).request_timestamp is None,
{
}

/// Law: a status with a mismatched version or genesis creates no peer record,
/// changes nothing, and reports the peer with the matching reason.
pub proof fn lemma_invalid_status_rejected(
    pre: Protocol,
    post: Protocol,
    peer: u64,
    st: Status,
    now: u64,
    acts: Seq<Action>,
)
    requires
        status_transition(pre, post, peer, st, now, acts),
        st.version != CURRENT_VERSION || st.genesis_hash != pre.chain.spec_genesis_hash(),
    ensures
        post == pre,
        acts.len() == 1,
        st.version != CURRENT_VERSION ==> acts[0] == (Action::Report {
            peer,
            severity: Severity::Bad(BadReason::IncompatibleVersion),
        }),
        st.version == CURRENT_VERSION ==> acts[0] == (Action::Report {
            peer,
            severity: Severity::Bad(BadReason::GenesisMismatch),
        }),
{
}

/// Law: a response whose id does not match the recorded pending request is
/// ignored outright: no state changes, the pending request stays
/// outstanding, and nothing is emitted.
pub proof fn lemma_stale_response_ignored(
    pre: Protocol,
    post: Protocol,
    peer: u64,
    resp_id: u64,
    resp_blocks: Seq<Block>,
    acts: Seq<Action>,
)
    requires
        block_response_transition(pre, post, peer, resp_id, resp_blocks, acts),
        pre.peer_info.contains(peer),
        pre.peer_info.val_of(peer).block_request matches Some(req) && req.id != resp_id,
    ensures
        post == pre,
        post.peer_info.val_of(peer).block_request == pre.peer_info.val_of(peer).block_request,
        acts == Seq::<Action>::empty(),
{
}

/// Law: a response from a peer with no pending request is reported as
/// misbehavior and nothing reaches block import.
pub proof fn lemma_unsolicited_response_rejected(
    pre: Protocol,
    post: Protocol,
    peer: u64,
    resp_id: u64,
    resp_blocks: Seq<Block>,
    acts: Seq<Action>,
)
    requires
        block_response_transition(pre, post, peer, resp_id, resp_blocks, acts),
        !pre.peer_info.contains(peer) || pre.peer_info.val_of(peer).block_request is None,
    ensures
        post == pre,
        post.chain == pre.chain,
        acts == seq![
            Action::Report { peer, severity: Severity::Bad(BadReason::UnexpectedResponse) },
        ],
{
}

fn reach_end_exec(b: &Block, to: &Option<BlockId>) -> (r: bool)
    ensures
        r == reach_end(*b, *to),
{
    match to {
        Some(BlockId::Number(t)) => b.number == *t,
        Some(BlockId::Hash(h)) => b.hash == *h,
        None => false,
    }
}

pub open spec fn distinct_seq(s: Seq<u64>) -> bool {
    forall|i: int, j: int| 0 <= i < j < s.len() ==> s[i] != s[j]
}

/// A timestamp is stale once it lies more than the wait threshold in the
/// past.
pub open spec fn timed_out(t: u64, now: u64) -> bool {
    now - t > REQUEST_WAIT
}

/// The timeout reports one sweep emits for the handshake set, in table
/// order.
pub open spec fn hs_timeouts(s: Seq<(u64, u64)>, now: u64) -> Seq<Action>
    decreases s.len(),
{
    if s.len() == 0 {
        Seq::empty()
    } else {
        let rest = hs_timeouts(s.drop_first(), now);
        if timed_out(s[0].1, now) {
            seq![Action::Report { peer: s[0].0, severity: Severity::Timeout }] + rest
        } else {
            rest
        }
    }
}

/// The timeout reports one sweep emits for outstanding block requests, in
/// table order.
pub open spec fn pending_timeouts(s: Seq<(u64, PeerInfo)>, now: u64) -> Seq<Action>
    decreases s.len(),
{
    if s.len() == 0 {
        Seq::empty()
    } else {
        let rest = pending_timeouts(s.drop_first(), now);
        match s[0].1.request_timestamp {
            Some(t) => if timed_out(t, now) {
                seq![Action::Report { peer: s[0].0, severity: Severity::Timeout }] + rest
            } else {
                rest
            },
            None => rest,
        }
    }
}

/// How many times one sweep's output reports `p` as timed out.
pub open spec fn count_reports(acts: Seq<Action>, p: u64) -> nat
    decreases acts.len(),
{
    if acts.len() == 0 {
        0
    } else {
        (if acts[0] == (Action::Report { peer: p, severity: Severity::Timeout }) {
            1nat
        } else {
            0nat
        }) + count_reports(acts.drop_first(), p)
    }
}

proof fn lemma_count_concat(a: Seq<Action>, b: Seq<Action>, p: u64)
    ensures
        count_reports(a + b, p) == count_reports(a, p) + count_reports(b, p),
    decreases a.len(),
{
    if a.len() == 0 {
        assert(a + b =~= b);
    } else {
        assert((a + b).drop_first() =~= a.drop_first() + b);
        assert((a + b)[0] == a[0]);
        lemma_count_concat(a.drop_first(), b, p);
    }
}

pub open spec fn pending_stale_at(s: Seq<(u64, PeerInfo)>, i: int, now: u64, p: u64) -> bool {
    s[i].0 == p && s[i].1.request_timestamp is Some && timed_out(
        s[i].1.request_timestamp->Some_0,
        now,
    )
}

pub open spec fn hs_stale_at(s: Seq<(u64, u64)>, i: int, now: u64, p: u64) -> bool {
    s[i].0 == p && timed_out(s[i].1, now)
}

proof fn lemma_count_pending(s: Seq<(u64, PeerInfo)>, now: u64, p: u64)
    requires
        forall|i: int, j: int| 0 <= i < j < s.len() ==> s[i].0 != s[j].0,
    ensures
        count_reports(pending_timeouts(s, now), p) == (if exists|i: int|
            0 <= i < s.len() && #[trigger] pending_stale_at(s, i, now, p) {
            1nat
        } else {
            0nat
        }),
    decreases s.len(),
{
    if s.len() == 0 {
    } else {
        let rest = s.drop_first();
        lemma_count_pending(rest, now, p);
        let head_report = seq![Action::Report { peer: s[0].0, severity: Severity::Timeout }];
        let head_emits = s[0].1.request_timestamp is Some && timed_out(
            s[0].1.request_timestamp->Some_0,
            now,
        );
        if head_emits {
            lemma_count_concat(head_report, pending_timeouts(rest, now), p);
            assert(head_report.drop_first() =~= Seq::<Action>::empty());
            assert(count_reports(Seq::<Action>::empty(), p) == 0);
            assert(head_report[0] == (Action::Report { peer: s[0].0, severity: Severity::Timeout }));
            assert(count_reports(head_report, p) == (if s[0].0 == p {
                1nat
            } else {
                0nat
            }));
        }
        if s[0].0 == p {
            assert(forall|i: int| 0 <= i < rest.len() ==> (#[trigger] rest[i]).0 != p);
            assert(!(exists|i: int|
                0 <= i < rest.len() && #[trigger] pending_stale_at(rest, i, now, p)));
            if head_emits {
                assert(pending_stale_at(s, 0, now, p));
                assert(count_reports(pending_timeouts(s, now), p) == 1);
            } else {
                assert forall|i: int| 0 <= i < s.len() implies !(#[trigger] pending_stale_at(
                    s,
                    i,
                    now,
                    p,
                )) by {
                    if i > 0 {
                        assert(s[i] == rest[i - 1]);
                        assert(rest[i - 1].0 != p);
                    }
                }
                assert(count_reports(pending_timeouts(s, now), p) == 0);
            }
        } else {
            assert((exists|i: int| 0 <= i < s.len() && #[trigger] pending_stale_at(s, i, now, p))
                == (exists|i: int|
                0 <= i < rest.len() && #[trigger] pending_stale_at(rest, i, now, p))) by {
                if exists|i: int| 0 <= i < s.len() && #[trigger] pending_stale_at(s, i, now, p) {
                    let i = choose|i: int|
                        0 <= i < s.len() && #[trigger] pending_stale_at(s, i, now, p);
                    assert(i > 0);
                    assert(rest[i - 1] == s[i]);
                    assert(pending_stale_at(rest, i - 1, now, p));
                }
                if exists|i: int|
                    0 <= i < rest.len() && #[trigger] pending_stale_at(rest, i, now, p) {
                    let i = choose|i: int|
                        0 <= i < rest.len() && #[trigger] pending_stale_at(rest, i, now, p);
                    assert(s[i + 1] == rest[i]);
                    assert(pending_stale_at(s, i + 1, now, p));
                }
            }
        }
    }
}

proof fn lemma_count_hs(s: Seq<(u64, u64)>, now: u64, p: u64)
    requires
        forall|i: int, j: int| 0 <= i < j < s.len() ==> s[i].0 != s[j].0,
    ensures
        count_reports(hs_timeouts(s, now), p) == (if exists|i: int|
            0 <= i < s.len() && #[trigger] hs_stale_at(s, i, now, p) {
            1nat
        } else {
            0nat
        }),
    decreases s.len(),
{
    if s.len() == 0 {
    } else {
        let rest = s.drop_first();
        lemma_count_hs(rest, now, p);
        let head_report = seq![Action::Report { peer: s[0].0, severity: Severity::Timeout }];
        if timed_out(s[0].1, now) {
            lemma_count_concat(head_report, hs_timeouts(rest, now), p);
            assert(head_report.drop_first() =~= Seq::<Action>::empty());
            assert(count_reports(Seq::<Action>::empty(), p) == 0);
            assert(head_report[0] == (Action::Report { peer: s[0].0, severity: Severity::Timeout }));
            assert(count_reports(head_report, p) == (if s[0].0 == p {
                1nat
            } else {
                0nat
            }));
        }
        if s[0].0 == p {
            assert(forall|i: int| 0 <= i < rest.len() ==> (#[trigger] rest[i]).0 != p);
            assert(!(exists|i: int| 0 <= i < rest.len() && #[trigger] hs_stale_at(rest, i, now, p)));
            if timed_out(s[0].1, now) {
                assert(hs_stale_at(s, 0, now, p));
                assert(count_reports(hs_timeouts(s, now), p) == 1);
            } else {
                assert forall|i: int| 0 <= i < s.len() implies !(#[trigger] hs_stale_at(
                    s,
                    i,
                    now,
                    p,
                )) by {
                    if i > 0 {
                        assert(s[i] == rest[i - 1]);
                        assert(rest[i - 1].0 != p);
                    }
                }
                assert(count_reports(hs_timeouts(s, now), p) == 0);
            }
        } else {
            assert((exists|i: int| 0 <= i < s.len() && #[trigger] hs_stale_at(s, i, now, p)) == (
            exists|i: int| 0 <= i < rest.len() && #[trigger] hs_stale_at(rest, i, now, p))) by {
                if exists|i: int| 0 <= i < s.len() && #[trigger] hs_stale_at(s, i, now, p) {
                    let i = choose|i: int| 0 <= i < s.len() && #[trigger] hs_stale_at(s, i, now, p);
                    assert(i > 0);
                    assert(rest[i - 1] == s[i]);
                    assert(hs_stale_at(rest, i - 1, now, p));
                }
                if exists|i: int| 0 <= i < rest.len() && #[trigger] hs_stale_at(rest, i, now, p) {
                    let i = choose|i: int|
                        0 <= i < rest.len() && #[trigger] hs_stale_at(rest, i, now, p);
                    assert(s[i + 1] == rest[i]);
                    assert(hs_stale_at(s, i + 1, now, p));
                }
            }
        }
    }
}

/// Whether one sweep at time `now` owes `peer` a timeout report: its
/// handshake is stale, or its outstanding block request is stale.
pub open spec fn sweep_stale(p: Protocol, peer: u64, now: u64) -> bool {
    (p.handshaking_peers.contains(peer) && timed_out(p.handshaking_peers.val_of(peer), now)) || (
    p.peer_info.contains(peer) && p.peer_info.val_of(peer).request_timestamp is Some && timed_out(
        p.peer_info.val_of(peer).request_timestamp->Some_0,
        now,
    ))
}

/// Law: a sweep flags a peer whose handshake or request is stale exactly
/// once, and flags nobody else.
pub proof fn lemma_sweep_exactly_once(p: Protocol, now: u64, peer: u64)
    requires
        p.inv(),
    ensures
        count_reports(
            pending_timeouts(p.peer_info.entries@, now) + hs_timeouts(
                p.handshaking_peers.entries@,
                now,
            ),
            peer,
        ) == (if sweep_stale(p, peer, now) {
            1nat
        } else {
            0nat
        }),
{
    let pi = p.peer_info.entries@;
    let hs = p.handshaking_peers.entries@;
    lemma_count_concat(pending_timeouts(pi, now), hs_timeouts(hs, now), peer);
    lemma_count_pending(pi, now, peer);
    lemma_count_hs(hs, now, peer);
    if p.peer_info.contains(peer) {
        let i = p.peer_info.idx_of(peer);
        p.peer_info.lemma_key_at(i);
        assert(pi[i].0 == peer && pi[i].1 == p.peer_info.val_of(peer));
        assert(!p.handshaking_peers.contains(peer));
        if p.peer_info.val_of(peer).request_timestamp is Some && timed_out(
            p.peer_info.val_of(peer).request_timestamp->Some_0,
            now,
        ) {
            assert(pending_stale_at(pi, i, now, peer));
        }
    }
    if p.handshaking_peers.contains(peer) {
        let i = p.handshaking_peers.idx_of(peer);
        p.handshaking_peers.lemma_key_at(i);
        assert(hs[i].0 == peer && hs[i].1 == p.handshaking_peers.val_of(peer));
        assert(!p.peer_info.contains(peer));
        if timed_out(p.handshaking_peers.val_of(peer), now) {
            assert(hs_stale_at(hs, i, now, peer));
        }
    }
    if exists|i: int| 0 <= i < pi.len() && #[trigger] pending_stale_at(pi, i, now, peer) {
        let i = choose|i: int| 0 <= i < pi.len() && #[trigger] pending_stale_at(pi, i, now, peer);
        assert(p.peer_info.contains(peer));
        p.peer_info.lemma_key_at(i);
        assert(p.peer_info.val_of(peer) == pi[i].1);
    }
    if exists|i: int| 0 <= i < hs.len() && #[trigger] hs_stale_at(hs, i, now, peer) {
        let i = choose|i: int| 0 <= i < hs.len() && #[trigger] hs_stale_at(hs, i, now, peer);
        assert(p.handshaking_peers.contains(peer));
        p.handshaking_peers.lemma_key_at(i);
        assert(p.handshaking_peers.val_of(peer) == hs[i].1);
    }
}

/// The status this node announces: its protocol version and chain head.
pub open spec fn own_status(c: Chain) -> Status {
    Status {
        version: CURRENT_VERSION,
        best_number: c.spec_best_number() as u64,
        best_hash: c.spec_best_hash(),
        genesis_hash: c.spec_genesis_hash(),
    }
}

pub struct Protocol {
    pub config: ProtocolConfig,
    /// Peers that connected but have not yet presented a valid status, with
    /// their connection time.
    pub handshaking_peers: Table<u64>,
    /// Validated peers.
    pub peer_info: Table<PeerInfo>,
    /// Storage collaborator.
    pub chain: Chain,
}

impl Protocol {
    /// Both tables are well formed, a peer is in at most one of them, every
    /// record is internally consistent, and the chain is well formed.
    pub open spec fn inv(self) -> bool {
        &&& self.handshaking_peers.wf()
        &&& self.peer_info.wf()
        &&& self.chain.wf()
        &&& forall|p: u64| !(self.handshaking_peers.contains(p) && self.peer_info.contains(p))
        &&& forall|p: u64|
            self.peer_info.contains(p) ==> (#[trigger] self.peer_info.val_of(p)).wf()
    }

    pub fn new(config: ProtocolConfig, chain: Chain) -> (p: Protocol)
        requires
            chain.wf(),
        ensures
            p.inv(),
            p.config == config,
            p.chain == chain,
            forall|q: u64| !p.handshaking_peers.contains(q),
            forall|q: u64| !p.peer_info.contains(q),
    {
        Protocol {
            config,
            handshaking_peers: Table::new(),
            peer_info: Table::new(),
            chain,
        }
    }

    /// A new connection enters the handshake set; any stale record from an
    /// earlier connection under the same identifier is dropped; this node
    /// announces its own chain head.
    pub fn on_peer_connected(&mut self, peer: u64, now: u64) -> (actions: Vec<Action>)
        requires
            old(self).inv(),
        ensures
            final(self).inv(),
            final(self).handshaking_peers.contains(peer),
            final(self).handshaking_peers.val_of(peer) == now,
            same_except(final(self).handshaking_peers, old(self).handshaking_peers, peer),
            !final(self).peer_info.contains(peer),
            same_except(final(self).peer_info, old(self).peer_info, peer),
            final(self).chain == old(self).chain,
            final(self).config == old(self).config,
            actions@ == seq![
                Action::Send { peer, message: Message { body: MessageBody::Status(own_status(old(self).chain)) } },
            ],
    {
        self.peer_info.remove(peer);
        self.handshaking_peers.insert(peer, now);
        let status = Status {
            version: CURRENT_VERSION,
            best_number: self.chain.best_number(),
            best_hash: self.chain.best_hash(),
            genesis_hash: self.chain.genesis_hash(),
        };
        let mut actions: Vec<Action> = Vec::new();
        actions.push(Action::Send { peer, message: Message { body: MessageBody::Status(status) } });
        proof {
            assert(actions@ =~= seq![
                Action::Send {
                    peer,
                    message: Message { body: MessageBody::Status(own_status(old(self).chain)) },
                },
            ]);
        }
        actions
    }

    /// Removes the peer from whichever table holds it; a no-op for an
    /// unknown peer.
    pub fn on_peer_disconnected(&mut self, peer: u64)
        requires
            old(self).inv(),
        ensures
            final(self).inv(),
            !final(self).handshaking_peers.contains(peer),
            !final(self).peer_info.contains(peer),
            same_except(final(self).handshaking_peers, old(self).handshaking_peers, peer),
            same_except(final(self).peer_info, old(self).peer_info, peer),
            final(self).chain == old(self).chain,
            final(self).config == old(self).config,
    {
        self.handshaking_peers.remove(peer);
        self.peer_info.remove(peer);
    }

    /// Validates a peer's status: on a version or genesis mismatch the peer
    /// is reported and not promoted; otherwise it leaves the handshake set
    /// and enters the peer table, already awaiting blocks if it is ahead.
    pub fn on_status_message(&mut self, peer: u64, status: &Status, now: u64) -> (actions: Vec<
        Action,
    >)
        requires
            old(self).inv(),
        ensures
            final(self).inv(),
            status_transition(*old(self), *final(self), peer, *status, now, actions@),
    {
        let mut actions: Vec<Action> = Vec::new();
        if status.version != CURRENT_VERSION {
            actions.push(
                Action::Report { peer, severity: Severity::Bad(BadReason::IncompatibleVersion) },
            );
            proof {
                assert(actions@ =~= seq![
                    Action::Report {
                        peer,
                        severity: Severity::Bad(BadReason::IncompatibleVersion),
                    },
                ]);
            }
            return actions;
        }
        if status.genesis_hash != self.chain.genesis_hash() {
            actions.push(
                Action::Report { peer, severity: Severity::Bad(BadReason::GenesisMismatch) },
            );
            proof {
                assert(actions@ =~= seq![
                    Action::Report { peer, severity: Severity::Bad(BadReason::GenesisMismatch) },
                ]);
            }
            return actions;
        }
        let our_best = self.chain.best_number();
        let mut next_request_id: u64 = 0;
        let mut request_timestamp: Option<u64> = None;
        let mut block_request: Option<BlockRequest> = None;
        if status.best_number > our_best {
            let request = BlockRequest {
                id: next_request_id,
                from: BlockId::Number(our_best),
                to: Some(BlockId::Number(status.best_number)),
                max: None,
            };
            next_request_id = next_request_id + 1;
            request_timestamp = Some(now);
            block_request = Some(request);
            actions.push(
                Action::Send { peer, message: Message { body: MessageBody::BlockRequest(request) } },
            );
        }
        let info = PeerInfo {
            protocol_version: status.version,
            best_hash: status.best_hash,
            best_number: status.best_number,
            request_timestamp,
            block_request,
            next_request_id,
        };
        self.peer_info.insert(peer, info);
        self.handshaking_peers.remove(peer);
        proof {
            let pre = *old(self);
            let post = *self;
            assert forall|p: u64| !(post.handshaking_peers.contains(p)
                && post.peer_info.contains(p)) by {
                if p != peer {
                    assert(post.handshaking_peers.contains(p) == pre.handshaking_peers.contains(p));
                    assert(post.peer_info.contains(p) == pre.peer_info.contains(p));
                }
            }
            assert forall|p: u64| post.peer_info.contains(p) implies (
            #[trigger] post.peer_info.val_of(p)).wf() by {
                if p != peer {
                    assert(pre.peer_info.contains(p));
                    assert(post.peer_info.val_of(p) == pre.peer_info.val_of(p));
                }
            }
            if status.best_number > our_best {
                assert(actions@ =~= seq![
                    Action::Send {
                        peer,
                        message: Message {
                            body: MessageBody::BlockRequest(
                                catchup_request(*status, pre.chain.spec_best_number()),
                            ),
                        },
                    },
                ]);
            } else {
                assert(actions@ =~= Seq::<Action>::empty());
            }
        }
        actions
    }

    /// Serves a block request: walks the chain from the requested start
    /// toward the requested end, within the cap, and answers under the same
    /// request id. The requester need not be a validated peer; no state
    /// changes.
    pub fn on_block_request(&self, peer: u64, request: &BlockRequest) -> (actions: Vec<Action>)
        requires
            self.inv(),
        ensures
            block_request_served(*self, peer, *request, actions@),
    {
        let mut blocks: Vec<Block> = Vec::new();
        let m = match request.max {
            Some(m) => m,
            None => u64::MAX,
        };
        let cap = if m < MAX_BLOCK_DATA_RESPONSE {
            m
        } else {
            MAX_BLOCK_DATA_RESPONSE
        };
        let ghost s = self.chain.blocks@;
        match self.chain.resolve(&request.from) {
            None => {}
            Some(start) => {
                let ghost full = serve_walk(s, start as int, cap, request.to);
                let n = self.chain.num_blocks();
                let mut i = start;
                let mut budget = cap;
                let mut done = cap == 0;
                while i < n && !done
                    invariant
                        s == self.chain.blocks@,
                        n == s.len(),
                        i <= n,
                        cap == request_cap(*request),
                        done || budget >= 1,
                        full == blocks@ + (if done {
                            Seq::<Block>::empty()
                        } else {
                            serve_walk(s, i as int, budget, request.to)
                        }),
                    decreases n - i, (if done { 0int } else { 1int }),
                {
                    let b = self.chain.block_at(i);
                    blocks.push(b);
                    if budget <= 1 {
                        done = true;
                    } else if reach_end_exec(&b, &request.to) {
                        done = true;
                    } else {
                        proof {
                            assert(serve_walk(s, i as int, budget, request.to) == seq![b]
                                + serve_walk(s, i as int + 1, (budget - 1) as u64, request.to));
                            assert(blocks@.drop_last() + seq![b] + serve_walk(
                                s,
                                i as int + 1,
                                (budget - 1) as u64,
                                request.to,
                            ) =~= blocks@ + serve_walk(
                                s,
                                i as int + 1,
                                (budget - 1) as u64,
                                request.to,
                            ));
                        }
                        i = i + 1;
                        budget = budget - 1;
                    }
                }
                proof {
                    if !done {
                        assert(serve_walk(s, i as int, budget, request.to) =~= Seq::<Block>::empty());
                    }
                    assert(blocks@ =~= full);
                }
            }
        }
        let response = BlockResponse { id: request.id, blocks };
        let mut actions: Vec<Action> = Vec::new();
        actions.push(
            Action::Send { peer, message: Message { body: MessageBody::BlockResponse(response) } },
        );
        actions
    }

    /// Handles a block response: unsolicited responses are reported, a stale
    /// id is ignored with the pending request left outstanding, and a
    /// matching id clears the request and imports the blocks.
    pub fn on_block_response(&mut self, peer: u64, response: BlockResponse) -> (actions: Vec<
        Action,
    >)
        requires
            old(self).inv(),
        ensures
            final(self).inv(),
            block_response_transition(
                *old(self),
                *final(self),
                peer,
                response.id,
                response.blocks@,
                actions@,
            ),
    {
        let mut actions: Vec<Action> = Vec::new();
        let rec: Option<PeerInfo> = match self.peer_info.get(peer) {
            Some(r) => Some(*r),
            None => None,
        };
        let info = match rec {
            None => {
                actions.push(
                    Action::Report { peer, severity: Severity::Bad(BadReason::UnexpectedResponse) },
                );
                proof {
                    assert(actions@ =~= seq![
                        Action::Report {
                            peer,
                            severity: Severity::Bad(BadReason::UnexpectedResponse),
                        },
                    ]);
                }
                return actions;
            }
            Some(info) => info,
        };
        let request = match info.block_request {
            None => {
                actions.push(
                    Action::Report { peer, severity: Severity::Bad(BadReason::UnexpectedResponse) },
                );
                proof {
                    assert(actions@ =~= seq![
                        Action::Report {
                            peer,
                            severity: Severity::Bad(BadReason::UnexpectedResponse),
                        },
                    ]);
                }
                return actions;
            }
            Some(request) => request,
        };
        if request.id != response.id {
            proof {
                assert(actions@ =~= Seq::<Action>::empty());
            }
            return actions;
        }
        let new_info = PeerInfo { request_timestamp: None, block_request: None, ..info };
        self.peer_info.insert(peer, new_info);
        self.chain.import_blocks(response.blocks);
        proof {
            let pre = *old(self);
            let post = *self;
            assert forall|p: u64| !(post.handshaking_peers.contains(p)
                && post.peer_info.contains(p)) by {
                if p == peer {
                    assert(pre.peer_info.contains(peer));
                    assert(!pre.handshaking_peers.contains(peer));
                } else {
                    assert(post.peer_info.contains(p) == pre.peer_info.contains(p));
                }
            }
            assert forall|p: u64| post.peer_info.contains(p) implies (
            #[trigger] post.peer_info.val_of(p)).wf() by {
                if p != peer {
                    assert(pre.peer_info.contains(p));
                    assert(post.peer_info.val_of(p) == pre.peer_info.val_of(p));
                }
            }
            assert(actions@ =~= Seq::<Action>::empty());
        }
        actions
    }

    /// Dispatches one inbound message. Undecodable bytes are reported as
    /// misbehavior and change no state.
    pub fn on_message(&mut self, peer: u64, data: &[u8], now: u64) -> (actions: Vec<Action>)
        requires
            old(self).inv(),
        ensures
            final(self).inv(),
            match dec_message(data@) {
                None => *final(self) == *old(self) && actions@ == seq![
                    Action::Report {
                        peer,
                        severity: Severity::Bad(BadReason::InvalidMessageFormat),
                    },
                ],
                Some(v) => match v {
                    MessageView::Status(st) => status_transition(
                        *old(self),
                        *final(self),
                        peer,
                        st,
                        now,
                        actions@,
                    ),
                    MessageView::Transaction(p) => *final(self) == *old(self) && actions@.len()
                        == 1 && (match actions@[0] {
                        Action::HandleTransaction { payload } => payload@ == p,
                        _ => false,
                    }),
                    MessageView::BlockRequest(r) => *final(self) == *old(self)
                        && block_request_served(*old(self), peer, r, actions@),
                    MessageView::BlockResponse { id, blocks } => block_response_transition(
                        *old(self),
                        *final(self),
                        peer,
                        id,
                        blocks,
                        actions@,
                    ),
                },
            },
    {
        match crate::wire::decode(data) {
            None => {
                let mut actions: Vec<Action> = Vec::new();
                actions.push(
                    Action::Report {
                        peer,
                        severity: Severity::Bad(BadReason::InvalidMessageFormat),
                    },
                );
                proof {
                    assert(actions@ =~= seq![
                        Action::Report {
                            peer,
                            severity: Severity::Bad(BadReason::InvalidMessageFormat),
                        },
                    ]);
                }
                actions
            }
            Some(m) => match m.body {
                MessageBody::Status(st) => self.on_status_message(peer, &st, now),
                MessageBody::Transaction(p) => {
                    let mut actions: Vec<Action> = Vec::new();
                    actions.push(Action::HandleTransaction { payload: p });
                    actions
                }
                MessageBody::BlockRequest(r) => self.on_block_request(peer, &r),
                MessageBody::BlockResponse(r) => self.on_block_response(peer, r),
            },
        }
    }

    /// Draws up to `num_to_sample` distinct validated peers uniformly at
    /// random. A full sample comes back as success; if fewer peers exist,
    /// every one of them comes back, marked as a shortfall.
    pub fn sample_peers(&self, num_to_sample: usize) -> (r: Result<Vec<u64>, Vec<u64>>)
        requires
            self.inv(),
        ensures
            match r {
                Ok(v) => {
                    &&& self.peer_info.spec_len() >= num_to_sample
                    &&& v@.len() == num_to_sample
                    &&& distinct_seq(v@)
                    &&& forall|i: int| 0 <= i < v@.len() ==> self.peer_info.contains(#[trigger] v@[i])
                },
                Err(v) => {
                    &&& self.peer_info.spec_len() < num_to_sample
                    &&& v@.len() == self.peer_info.spec_len()
                    &&& distinct_seq(v@)
                    &&& forall|i: int| 0 <= i < v@.len() ==> self.peer_info.contains(#[trigger] v@[i])
                    &&& forall|p: u64| self.peer_info.contains(p) ==> v@.contains(p)
                },
            },
    {
        let n = self.peer_info.len();
        if num_to_sample <= n {
            let idxs = sample_indices(n, num_to_sample);
            let mut v: Vec<u64> = Vec::new();
            let mut j: usize = 0;
            while j < idxs.len()
                invariant
                    self.inv(),
                    j <= idxs@.len(),
                    v@.len() == j,
                    idxs@.len() == num_to_sample,
                    n == self.peer_info.spec_len(),
                    forall|a: int| 0 <= a < idxs@.len() ==> #[trigger] idxs@[a] < n,
                    forall|a: int, b: int| 0 <= a < b < idxs@.len() ==> idxs@[a] != idxs@[b],
                    forall|a: int|
                        0 <= a < j ==> #[trigger] v@[a] == self.peer_info.key_at(idxs@[a] as int),
                    forall|a: int| 0 <= a < j ==> self.peer_info.contains(#[trigger] v@[a]),
                decreases idxs@.len() - j,
            {
                let (key, _) = self.peer_info.entry_at(idxs[j]);
                proof {
                    self.peer_info.lemma_key_at(idxs@[j as int] as int);
                }
                v.push(key);
                j = j + 1;
            }
            proof {
                assert forall|a: int, b: int| 0 <= a < b < v@.len() implies v@[a] != v@[b] by {
                    assert(idxs@[a] != idxs@[b]);
                    assert(v@[a] == self.peer_info.key_at(idxs@[a] as int));
                    assert(v@[b] == self.peer_info.key_at(idxs@[b] as int));
                    if idxs@[a] < idxs@[b] {
                        assert(self.peer_info.key_at(idxs@[a] as int) != self.peer_info.key_at(
                            idxs@[b] as int,
                        ));
                    } else {
                        assert(self.peer_info.key_at(idxs@[b] as int) != self.peer_info.key_at(
                            idxs@[a] as int,
                        ));
                    }
                }
            }
            Ok(v)
        } else {
            let mut v: Vec<u64> = Vec::new();
            let mut j: usize = 0;
            while j < n
                invariant
                    self.inv(),
                    j <= n,
                    n == self.peer_info.spec_len(),
                    v@.len() == j,
                    forall|a: int|
                        0 <= a < j ==> #[trigger] v@[a] == self.peer_info.key_at(a),
                    forall|a: int| 0 <= a < j ==> self.peer_info.contains(#[trigger] v@[a]),
                decreases n - j,
            {
                let (key, _) = self.peer_info.entry_at(j);
                proof {
                    self.peer_info.lemma_key_at(j as int);
                }
                v.push(key);
                j = j + 1;
            }
            proof {
                assert forall|a: int, b: int| 0 <= a < b < v@.len() implies v@[a] != v@[b] by {
                    assert(v@[a] == self.peer_info.key_at(a));
                    assert(v@[b] == self.peer_info.key_at(b));
                }
                assert forall|p: u64| self.peer_info.contains(p) implies v@.contains(p) by {
                    let i = self.peer_info.idx_of(p);
                    assert(self.peer_info.key_at(i) == p);
                    assert(v@[i] == p);
                }
            }
            Err(v)
        }
    }

    /// Wraps a message for the transport layer as a send action.
    pub fn send_message(&self, actions: &mut Vec<Action>, peer: u64, message: Message)
        ensures
            final(actions)@ == old(actions)@.push(Action::Send { peer, message }),
    {
        actions.push(Action::Send { peer, message });
    }

    /// Liveness sweep: flags every handshake and every outstanding block
    /// request whose timestamp is older than the wait threshold. Read-only:
    /// eviction happens through the transport layer's later disconnect.
    pub fn maintain_peers(&self, now: u64) -> (actions: Vec<Action>)
        requires
            self.inv(),
        ensures
            actions@ == pending_timeouts(self.peer_info.entries@, now) + hs_timeouts(
                self.handshaking_peers.entries@,
                now,
            ),
    {
        let mut actions: Vec<Action> = Vec::new();
        let ghost pi = self.peer_info.entries@;
        let ghost hs = self.handshaking_peers.entries@;
        let n1 = self.peer_info.len();
        let mut j: usize = 0;
        proof {
            assert(pi.subrange(0, pi.len() as int) =~= pi);
        }
        while j < n1
            invariant
                self.inv(),
                j <= n1,
                n1 == pi.len(),
                pi == self.peer_info.entries@,
                pending_timeouts(pi, now) == actions@ + pending_timeouts(
                    pi.subrange(j as int, pi.len() as int),
                    now,
                ),
            decreases n1 - j,
        {
            proof {
                let tail = pi.subrange(j as int, pi.len() as int);
                assert(tail[0] == pi[j as int]);
                assert(tail.drop_first() =~= pi.subrange(j as int + 1, pi.len() as int));
            }
            let (key, info) = self.peer_info.entry_at(j);
            match info.request_timestamp {
                Some(t) => {
                    if now > t && now - t > REQUEST_WAIT {
                        let ghost pre = actions@;
                        actions.push(Action::Report { peer: key, severity: Severity::Timeout });
                        proof {
                            assert(pre + (seq![
                                Action::Report { peer: key, severity: Severity::Timeout },
                            ] + pending_timeouts(
                                pi.subrange(j as int + 1, pi.len() as int),
                                now,
                            )) =~= actions@ + pending_timeouts(
                                pi.subrange(j as int + 1, pi.len() as int),
                                now,
                            ));
                        }
                    }
                }
                None => {}
            }
            j = j + 1;
        }
        proof {
            assert(pi.subrange(pi.len() as int, pi.len() as int) =~= Seq::<(u64, PeerInfo)>::empty());
            assert(hs.subrange(0, hs.len() as int) =~= hs);
        }
        let ghost base = actions@;
        let n2 = self.handshaking_peers.len();
        let mut k: usize = 0;
        while k < n2
            invariant
                self.inv(),
                k <= n2,
                n2 == hs.len(),
                hs == self.handshaking_peers.entries@,
                base == pending_timeouts(self.peer_info.entries@, now),
                hs_timeouts(hs, now) == actions@.subrange(base.len() as int, actions@.len() as int)
                    + hs_timeouts(hs.subrange(k as int, hs.len() as int), now),
                actions@.len() >= base.len(),
                actions@.subrange(0, base.len() as int) == base,
            decreases n2 - k,
        {
            proof {
                let tail = hs.subrange(k as int, hs.len() as int);
                assert(tail[0] == hs[k as int]);
                assert(tail.drop_first() =~= hs.subrange(k as int + 1, hs.len() as int));
            }
            let (key, t) = self.handshaking_peers.entry_at(k);
            let t = *t;
            if now > t && now - t > REQUEST_WAIT {
                let ghost pre = actions@;
                actions.push(Action::Report { peer: key, severity: Severity::Timeout });
                proof {
                    assert(actions@.subrange(base.len() as int, actions@.len() as int)
                        =~= pre.subrange(base.len() as int, pre.len() as int) + seq![
                        Action::Report { peer: key, severity: Severity::Timeout },
                    ]);
                    assert(pre.subrange(base.len() as int, pre.len() as int) + (seq![
                        Action::Report { peer: key, severity: Severity::Timeout },
                    ] + hs_timeouts(hs.subrange(k as int + 1, hs.len() as int), now))
                        =~= actions@.subrange(base.len() as int, actions@.len() as int)
                        + hs_timeouts(hs.subrange(k as int + 1, hs.len() as int), now));
                    assert(actions@.subrange(0, base.len() as int) =~= base);
                }
            }
            k = k + 1;
        }
        proof {
            assert(hs.subrange(hs.len() as int, hs.len() as int) =~= Seq::<(u64, u64)>::empty());
            assert(actions@ =~= actions@.subrange(0, base.len() as int) + actions@.subrange(
                base.len() as int,
                actions@.len() as int,
            ));
        }
        actions
    }

    /// Hands a decoded transaction to the pluggable handler.
    pub fn on_transaction_message<T: Transaction>(&self, tx: &T) -> (a: Action)
        ensures
            a matches Action::HandleTransaction { payload } && payload@ == tx.bytes_view(),
    {
        Action::HandleTransaction { payload: tx.to_bytes() }
    }
}

} // verus!
