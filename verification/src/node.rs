//! The decision state machine of a node.
//!
//! Handlers mutate the node and its state and emit the outbound work as a
//! list of actions; the driver that owns the validator connection performs
//! them in order. Randomness (peer sampling, nonces) comes in through small
//! trusted wrappers over the process random number generator.

use vstd::prelude::*;

use crate::codec::{encode_message, encode_spec};
use crate::config::PolyShardConfig;
use crate::ids::{bytes_eq, clone_bytes, Block, BlockId, PeerId};
use crate::message::{MessageKind, SnowballMessage};
use crate::state::{bk_contains, bk_get, bk_unique, dm_contains, dm_get, peer_index,
    peers_contain, peers_unique, SnowballDecisionState, SnowballPhase, SnowballState};
use crate::timing::{Timeout, TimeoutState};

verus! {

/// An effect for the driver to carry out against the validator service.
pub enum Action {
    /// Send `payload` to `peer`, tagged with the kind's wire name.
    SendTo { peer: PeerId, kind: MessageKind, payload: Vec<u8> },
    /// Sleep before carrying out what follows (fault injection).
    Sleep { millis: u64 },
    /// Commit the block as the new chain head.
    CommitBlock { block_id: BlockId },
    /// Mark the block failed.
    FailBlock { block_id: BlockId },
    /// Begin assembling a new block.
    InitializeBlock,
    /// Abandon the block being assembled.
    CancelBlock,
    /// Ask the validator to check the block's validity.
    CheckBlocks { block_id: BlockId },
}

// ---------------------------------------------------------------------------
// Fault injection
// ---------------------------------------------------------------------------

/// This node suppresses all outbound sends.
pub open spec fn byz_hung(s: SnowballState) -> bool {
    s.byzantine_test.enabled && s.byzantine_test.hang_idx@.contains(s.order)
}

/// This node rewrites every outbound vote to 0.
pub open spec fn byz_wrong(s: SnowballState) -> bool {
    s.byzantine_test.enabled && s.byzantine_test.wrong_decision_idx@.contains(s.order)
}

/// This node rewrites outbound sequence numbers to random values.
pub open spec fn byz_spurious(s: SnowballState) -> bool {
    s.byzantine_test.enabled && s.byzantine_test.spurious_idx@.contains(s.order)
}

/// This node sleeps before each outbound send.
pub open spec fn byz_sleep(s: SnowballState) -> bool {
    s.byzantine_test.enabled && s.byzantine_test.sleep_idx@.contains(s.order)
}

/// This node sends every outbound message twice.
pub open spec fn byz_duplicate(s: SnowballState) -> bool {
    s.byzantine_test.enabled && s.byzantine_test.duplicate_idx@.contains(s.order)
}

/// The vote that actually leaves this node when `v` should be sent: a node
/// configured for wrong decisions always sends 0.
pub open spec fn sent_vote(s: SnowballState, v: u8) -> u8 {
    if byz_wrong(s) {
        0
    } else {
        v
    }
}

/// How many wire messages one transmission turn of this node puts out:
/// none when hung, two when duplicating, one otherwise.
pub open spec fn msgs_per_turn(s: SnowballState) -> int {
    if byz_hung(s) {
        0
    } else if byz_duplicate(s) {
        2
    } else {
        1
    }
}

/// How many actions one transmission turn of this node appends: its sends,
/// preceded by a sleep request when the node is configured to doze.
pub open spec fn actions_per_turn(s: SnowballState) -> int {
    if byz_hung(s) {
        0
    } else {
        (if byz_sleep(s) {
            1int
        } else {
            0
        }) + msgs_per_turn(s)
    }
}

/// A counter after `n` more saturating increments.
pub open spec fn sat_add(c: u64, n: int) -> u64 {
    if c + n <= u64::MAX {
        (c + n) as u64
    } else {
        u64::MAX
    }
}

/// Saturating increments compose: adding `a` and then `b` is adding
/// `a + b`.
pub proof fn lemma_sat_add_assoc(c: u64, a: int, b: int)
    requires
        a >= 0,
        b >= 0,
    ensures
        sat_add(sat_add(c, a), b) == sat_add(c, a + b),
{
}

/// The payload bytes of an action, where it carries any.
pub open spec fn send_payload(a: Action) -> Seq<u8> {
    match a {
        Action::SendTo { peer, kind, payload } => payload@,
        _ => Seq::<u8>::empty(),
    }
}

/// An outbound vote stays binary: whatever fault injection does to it, a
/// vote of 0 or 1 leaves as 0 or 1.
pub proof fn lemma_sent_vote_in_range(s: SnowballState, v: u8)
    requires
        v == 0 || v == 1,
    ensures
        sent_vote(s, v) == 0 || sent_vote(s, v) == 1,
{
}

/// A node in the wrong-decision set votes 0 on the wire, whatever it meant
/// to send.
pub proof fn lemma_wrong_decision_vote(s: SnowballState, v: u8)
    ensures
        byz_wrong(s) ==> sent_vote(s, v) == 0,
{
}

/// What one transmitted message looks like: a payload in the wire encoding,
/// carrying the given kind and vote, a fresh nonce, and — unless the node
/// injects spurious sequence numbers — the given sequence number.
pub open spec fn is_send_of(a: Action, target: Seq<u8>, kind: MessageKind, vote: u8, seq_num: u64,
    spurious: bool) -> bool {
    a matches Action::SendTo { peer, kind: k2, payload } && peer@ == target && k2 == kind
        && (exists|nonce: Seq<u8>, sq: u64|
        nonce.len() == 24 && payload@ == #[trigger] encode_spec(kind, sq, vote, nonce) && (
        !spurious ==> sq == seq_num))
}

// ---------------------------------------------------------------------------
// Randomness
// ---------------------------------------------------------------------------

/// Relies on rand's Rng::gen_range on the thread generator: a uniformly
/// random index below `max` (it panics only on an empty range).
#[verifier::external_body]
fn random_below(max: usize) -> (r: usize)
    requires
        max > 0,
    ensures
        r < max,
{
    rand::Rng::gen_range(&mut rand::thread_rng(), 0..max)
}

/// Relies on rand's Rng::fill on the thread generator: a fresh random nonce
/// of 24 bytes (fill leaves the buffer's length unchanged).
#[verifier::external_body]
fn fresh_nonce() -> (r: Vec<u8>)
    ensures
        r@.len() == 24,
{
    let mut v = vec![0u8; 24];
    rand::Rng::fill(&mut rand::thread_rng(), v.as_mut_slice());
    v
}

// ---------------------------------------------------------------------------
// The node
// ---------------------------------------------------------------------------

/// Contains the core logic of a node: the queue of blocks awaiting a
/// decision. Everything else it works on lives in the state.
pub struct SnowballNode {
    pub block_queue: Vec<Block>,
}

impl SnowballNode {
    /// Every queued block has a start timestamp recorded, so a decision on
    /// it can be timed.
    pub open spec fn queue_timestamped(self, s: SnowballState) -> bool {
        forall|q: int| 0 <= q < self.block_queue@.len() ==> bk_contains(
            s.measurements.convergenza@, (#[trigger] self.block_queue@[q]).block_id@)
    }

    /// Construct a new node: record the chain head, and — as the designated
    /// proposer, at order 0 — start assembling a block.
    pub fn new(config: &PolyShardConfig, chain_head: Block, state: &mut SnowballState,
        out: &mut Vec<Action>) -> (r: SnowballNode)
        ensures
            r.block_queue@.len() == 0,
            *final(state) == (SnowballState { chain_head: final(state).chain_head, ..*old(
            state) }),
            final(state).chain_head@ == chain_head.block_id@,
            old(state).order == 0 ==> final(out)@ == old(out)@.push(Action::InitializeBlock),
            old(state).order != 0 ==> final(out)@ == old(out)@,
    {
        let n = SnowballNode { block_queue: Vec::new() };
        state.chain_head = chain_head.block_id;
        if state.order == 0 {
            out.push(Action::InitializeBlock);
        }
        n
    }

    /// Whether this node should publish now: only the designated proposer,
    /// and only between decisions. The driver then summarizes and finalizes
    /// a block through the validator.
    pub fn try_publish(&mut self, state: &mut SnowballState) -> (r: bool)
        ensures
            *final(self) == *old(self),
            *final(state) == *old(state),
            r == (old(state).phase == SnowballPhase::Idle && old(state).order == 0),
    {
        if !matches!(state.phase, SnowballPhase::Idle) {
            return false;
        }
        if state.order != 0 {
            return false;
        }
        true
    }

    /// Send one peer message, applying the configured fault injections: a
    /// hung node sends nothing; a wrong-decision node votes 0; a spurious
    /// node rewrites the sequence number; a sleepy node asks for a delay; a
    /// duplicating node sends twice.
    pub fn send_peer_message(&mut self, peer_id: &PeerId, kind: MessageKind, v: u8, seq_num: u64,
        state: &mut SnowballState, out: &mut Vec<Action>)
        ensures
            *final(self) == *old(self),
            final(state).measurements.convergenza == old(state).measurements.convergenza,
            final(state).measurements.n_messaggi_inviati == sat_add(
                old(state).measurements.n_messaggi_inviati, msgs_per_turn(*old(state))),
            *final(state) == (SnowballState { measurements: final(state).measurements, ..*old(
            state) }),
            final(out)@.len() == old(out)@.len() + actions_per_turn(*old(state)),
            final(out)@.take(old(out)@.len() as int) == old(out)@,
            byz_hung(*old(state)) ==> final(out)@ == old(out)@,
            !byz_hung(*old(state)) ==> {
                let base = old(out)@.len() + (if byz_sleep(*old(state)) {
                    1int
                } else {
                    0
                });
                let sends: int = if byz_duplicate(*old(state)) {
                    2
                } else {
                    1
                };
                &&& (byz_sleep(*old(state)) ==> final(out)@[old(out)@.len() as int] == (
                Action::Sleep { millis: old(state).byzantine_test.max_sleep_delay_millis }))
                &&& forall|q: int|
                    base <= q < base + sends ==> is_send_of(
                        #[trigger] final(out)@[q],
                        peer_id@,
                        kind,
                        sent_vote(*old(state), v),
                        seq_num,
                        byz_spurious(*old(state)),
                    )
                &&& (byz_duplicate(*old(state)) ==> send_payload(final(out)@[base])
                    == send_payload(final(out)@[base + 1]))
            },
    {
        if state.byzantine_test.enabled && crate::state::contains_idx(
            &state.byzantine_test.hang_idx, state.order) {
            return;
        }
        let nonce = fresh_nonce();
        let mut payload = SnowballMessage::new();
        payload.vote = v;
        payload.nonce = nonce;
        payload.seq_num = seq_num;
        payload.message_type = kind;
        if state.byzantine_test.enabled && crate::state::contains_idx(
            &state.byzantine_test.wrong_decision_idx, state.order) {
            payload.vote = 0;
        }
        if state.byzantine_test.enabled && crate::state::contains_idx(
            &state.byzantine_test.spurious_idx, state.order) {
            payload.seq_num = random_below(usize::MAX) as u64;
        }
        if state.byzantine_test.enabled && crate::state::contains_idx(
            &state.byzantine_test.sleep_idx, state.order) {
            out.push(Action::Sleep { millis: state.byzantine_test.max_sleep_delay_millis });
        }
        let ghost base = out@.len() as int;
        let bytes = encode_message(&payload);
        out.push(Action::SendTo { peer: clone_bytes(peer_id), kind, payload: bytes });
        state.set_message_sent();
        proof {
            assert(is_send_of(out@[base], peer_id@, kind, sent_vote(*old(state), v), seq_num,
                byz_spurious(*old(state))));
        }
        if state.byzantine_test.enabled && crate::state::contains_idx(
            &state.byzantine_test.duplicate_idx, state.order) {
            let bytes2 = encode_message(&payload);
            out.push(Action::SendTo { peer: clone_bytes(peer_id), kind, payload: bytes2 });
            state.set_message_sent();
            proof {
                assert(is_send_of(out@[base + 1], peer_id@, kind, sent_vote(*old(state), v),
                    seq_num, byz_spurious(*old(state))));
            }
        }
        proof {
            assert(final(out)@.take(old(out)@.len() as int) =~= old(out)@);
        }
    }

    /// Send a peer message that carries no vote.
    pub fn send_peer_notification(&mut self, peer_id: &PeerId, kind: MessageKind, seq_num: u64,
        state: &mut SnowballState, out: &mut Vec<Action>)
        ensures
            *final(self) == *old(self),
            final(state).measurements.convergenza == old(state).measurements.convergenza,
            final(state).measurements.n_messaggi_inviati == sat_add(
                old(state).measurements.n_messaggi_inviati, msgs_per_turn(*old(state))),
            *final(state) == (SnowballState { measurements: final(state).measurements, ..*old(
            state) }),
            final(out)@.len() == old(out)@.len() + actions_per_turn(*old(state)),
            final(out)@.take(old(out)@.len() as int) == old(out)@,
            byz_hung(*old(state)) ==> final(out)@ == old(out)@,
            !byz_hung(*old(state)) ==> {
                let base = old(out)@.len() + (if byz_sleep(*old(state)) {
                    1int
                } else {
                    0
                });
                let sends: int = if byz_duplicate(*old(state)) {
                    2
                } else {
                    1
                };
                &&& (byz_sleep(*old(state)) ==> final(out)@[old(out)@.len() as int] == (
                Action::Sleep { millis: old(state).byzantine_test.max_sleep_delay_millis }))
                &&& forall|q: int|
                    base <= q < base + sends ==> is_send_of(
                        #[trigger] final(out)@[q],
                        peer_id@,
                        kind,
                        sent_vote(*old(state), 0),
                        seq_num,
                        byz_spurious(*old(state)),
                    )
            },
    {
        self.send_peer_message(peer_id, kind, 0, seq_num, state, out);
    }

    /// Draw one uniformly random member index, excluding none.
    pub fn random_value(&mut self, range_max: usize) -> (r: usize)
        requires
            range_max > 0,
        ensures
            *final(self) == *old(self),
            r < range_max,
    {
        random_below(range_max)
    }

    /// Draw `amount` distinct member indices uniformly at random, none of
    /// them this node's own order: winnow a pool of all other indices down
    /// by random picks.
    pub fn select_node_sample(&mut self, state: &SnowballState, amount: usize) -> (sample: Vec<
        usize,
    >)
        requires
            amount < state.member_ids@.len(),
            state.order < state.member_ids@.len(),
        ensures
            *final(self) == *old(self),
            sample@.len() == amount,
            forall|q: int| 0 <= q < amount ==> (#[trigger] sample@[q]) < state.member_ids@.len(),
            forall|q: int| 0 <= q < amount ==> (#[trigger] sample@[q]) as u64 != state.order,
            forall|a: int, b: int| 0 <= a < b < amount ==> sample@[a] != sample@[b],
    {
        let n = state.member_ids.len();
        let mut pool: Vec<usize> = Vec::new();
        let mut i: usize = 0;
        while i < n
            invariant
                i <= n,
                n == state.member_ids@.len(),
                state.order < n,
                pool@.len() == (if (i as u64) <= state.order {
                    i as int
                } else {
                    i - 1
                }),
                forall|q: int| 0 <= q < pool@.len() ==> (#[trigger] pool@[q]) < i,
                forall|q: int| 0 <= q < pool@.len() ==> (#[trigger] pool@[q]) as u64
                    != state.order,
                forall|a: int, b: int| 0 <= a < b < pool@.len() ==> pool@[a] != pool@[b],
            decreases n - i,
        {
            if i as u64 != state.order {
                pool.push(i);
            }
            i += 1;
        }
        let mut sample: Vec<usize> = Vec::new();
        let mut taken: usize = 0;
        while taken < amount
            invariant
                n == state.member_ids@.len(),
                amount < n,
                taken <= amount,
                sample@.len() == taken,
                pool@.len() == n - 1 - taken,
                forall|q: int| 0 <= q < pool@.len() ==> (#[trigger] pool@[q]) < n,
                forall|q: int| 0 <= q < pool@.len() ==> (#[trigger] pool@[q]) as u64
                    != state.order,
                forall|a: int, b: int| 0 <= a < b < pool@.len() ==> pool@[a] != pool@[b],
                forall|q: int| 0 <= q < sample@.len() ==> (#[trigger] sample@[q]) < n,
                forall|q: int| 0 <= q < sample@.len() ==> (#[trigger] sample@[q]) as u64
                    != state.order,
                forall|a: int, b: int| 0 <= a < b < sample@.len() ==> sample@[a] != sample@[b],
                forall|a: int, b: int|
                    0 <= a < pool@.len() && 0 <= b < sample@.len() ==> pool@[a] != sample@[b],
            decreases amount - taken,
        {
            let ghost old_pool = pool@;
            let ghost old_sample = sample@;
            let j = random_below(pool.len());
            let choice = pool.swap_remove(j);
            sample.push(choice);
            taken += 1;
            proof {
                assert(choice == old_pool[j as int]);
                assert forall|q: int| 0 <= q < pool@.len() implies exists|p: int| 0 <= p
                    < old_pool.len() && p != j && #[trigger] pool@[q] == old_pool[p] by {
                    if q == j && j < pool@.len() {
                        assert(pool@[q] == old_pool[old_pool.len() - 1]);
                    } else {
                        assert(pool@[q] == old_pool[q]);
                    }
                }
                assert forall|a: int, b: int| 0 <= a < b < pool@.len() implies pool@[a]
                    != pool@[b] by {
                    let pa = choose|p: int| 0 <= p < old_pool.len() && p != j && #[trigger] pool@[
                        a] == old_pool[p];
                    let pb = choose|p: int| 0 <= p < old_pool.len() && p != j && #[trigger] pool@[
                        b] == old_pool[p];
                    if a == j && j < pool@.len() {
                        assert(pool@[a] == old_pool[old_pool.len() - 1]);
                    } else {
                        assert(pool@[a] == old_pool[a]);
                    }
                    if b == j && j < pool@.len() {
                        assert(pool@[b] == old_pool[old_pool.len() - 1]);
                    } else {
                        assert(pool@[b] == old_pool[b]);
                    }
                }
            }
        }
        sample
    }
}

// ---------------------------------------------------------------------------
// The Snowball step
// ---------------------------------------------------------------------------

/// The colour at index `i` of the tallies: 0 is KO, 1 is OK.
pub open spec fn color_of(i: int) -> SnowballDecisionState {
    if i == 1 {
        SnowballDecisionState::OK
    } else {
        SnowballDecisionState::KO
    }
}

/// The index of a colour in the tallies.
pub open spec fn color_index(c: SnowballDecisionState) -> int {
    if c == SnowballDecisionState::OK {
        1
    } else {
        0
    }
}

/// Whether the KO arm fires: it is checked first, and acting on it empties
/// the buffer or ends the round, so at most one arm acts per call.
pub open spec fn ovr_fired0(s: SnowballState) -> bool {
    s.response_buffer[0] >= s.alfa
}

/// Whether any arm fires (a majority was observed for some colour).
pub open spec fn ovr_any(s: SnowballState) -> bool {
    s.response_buffer[0] >= s.alfa || s.response_buffer[1] >= s.alfa
}

/// The colour whose arm acts.
pub open spec fn ovr_color(s: SnowballState) -> SnowballDecisionState {
    if ovr_fired0(s) {
        SnowballDecisionState::KO
    } else {
        SnowballDecisionState::OK
    }
}

/// The confidence counter after the acting arm: reset to 1 on a colour
/// change, incremented otherwise.
pub open spec fn ovr_newconf(s: SnowballState) -> int {
    if ovr_color(s) != s.last_color {
        1
    } else {
        s.confidence_counter + 1
    }
}

/// Whether this round decides: a majority arm fired and confidence reached
/// the decision threshold.
pub open spec fn ovr_decides(s: SnowballState) -> bool {
    ovr_any(s) && ovr_newconf(s) >= s.beta
}

/// The cumulative preference counts after the acting arm (saturating).
pub open spec fn ovr_newarr(s: SnowballState) -> [u64; 2] {
    let i = color_index(ovr_color(s));
    let di: u64 = if s.decision_array[i] < u64::MAX {
        (s.decision_array[i] + 1) as u64
    } else {
        u64::MAX
    };
    if i == 0 {
        [di, s.decision_array[1]]
    } else {
        [s.decision_array[0], di]
    }
}

/// The colour advocated for the current sequence number before the round.
pub open spec fn ovr_curtip(s: SnowballState) -> SnowballDecisionState {
    dm_get(s.decision_map@, s.seq_num)->0
}

/// The colour advocated after the round: the acting colour overtakes the
/// tip when its cumulative count passes the tip's.
pub open spec fn ovr_tip(s: SnowballState) -> SnowballDecisionState {
    let arr = ovr_newarr(s);
    let i = color_index(ovr_color(s));
    let ci = color_index(ovr_curtip(s));
    if arr[i] > arr[ci] {
        ovr_color(s)
    } else {
        ovr_curtip(s)
    }
}

/// With a unanimity threshold (`alfa == k`) a full buffer fires an arm only
/// when every collected vote went to that one colour.
pub proof fn lemma_unanimity(s: SnowballState)
    requires
        s.alfa == s.k,
        s.response_buffer[0] + s.response_buffer[1] == s.k,
    ensures
        s.response_buffer[0] >= s.alfa ==> s.response_buffer[0] == s.k
            && s.response_buffer[1] == 0,
        s.response_buffer[1] >= s.alfa ==> s.response_buffer[1] == s.k
            && s.response_buffer[0] == 0,
{
}

/// With a decision threshold of one (`beta == 1`), the first round that
/// sees any majority decides immediately.
pub proof fn lemma_first_majority_decides(s: SnowballState)
    requires
        s.beta == 1,
        ovr_any(s),
    ensures
        ovr_decides(s),
{
}

impl SnowballNode {
    /// Reset the round tallies and send a `request` to each sampled member,
    /// adding each to the waiting-response map with a fresh timeout.
    pub fn prepare_and_forward_peer_requests(&mut self, sample: Vec<usize>,
        state: &mut SnowballState, now: u64, out: &mut Vec<Action>)
        requires
            forall|q: int| 0 <= q < sample@.len() ==> (#[trigger] sample@[q])
                < old(state).member_ids@.len(),
            forall|q: int| 0 <= q < sample@.len() ==> (#[trigger] sample@[q]) as u64 != old(
                state).order,
            forall|a: int, b: int| 0 <= a < b < sample@.len() ==> sample@[a] != sample@[b],
            peers_unique(old(state).member_ids@),
            old(state).order < old(state).member_ids@.len(),
            old(state).member_ids@[old(state).order as int]@ == old(state).id@,
            bk_unique(old(state).waiting_response_map@),
        ensures
            *final(self) == *old(self),
            *final(state) == (SnowballState {
                response_buffer: final(state).response_buffer,
                waiting_response_map: final(state).waiting_response_map,
                measurements: final(state).measurements,
                ..*old(state)
            }),
            final(state).measurements.convergenza == old(state).measurements.convergenza,
            final(state).measurements.n_messaggi_inviati == sat_add(
                old(state).measurements.n_messaggi_inviati,
                sample@.len() * msgs_per_turn(*old(state)),
            ),
            final(out)@.len() == old(out)@.len() + sample@.len() * actions_per_turn(
                *old(state)),
            final(state).response_buffer[0] == 0 && final(state).response_buffer[1] == 0,
            bk_unique(final(state).waiting_response_map@),
            forall|q: int|
                0 <= q < sample@.len() ==> bk_get(
                    final(state).waiting_response_map@,
                    (#[trigger] old(state).member_ids@[sample@[q] as int])@,
                ) == Some(Timeout {
                    state: TimeoutState::Active,
                    duration: old(state).hang_timeout,
                    start: now,
                }),
            forall|p: Seq<u8>|
                #[trigger] bk_contains(final(state).waiting_response_map@, p) ==> (bk_contains(
                    old(state).waiting_response_map@, p) || exists|q: int|
                    0 <= q < sample@.len() && p == (#[trigger] old(
                    state).member_ids@[sample@[q] as int])@),
            forall|p: Seq<u8>|
                #[trigger] bk_contains(old(state).waiting_response_map@, p) ==> bk_contains(
                    final(state).waiting_response_map@, p),
            final(state).waiting_response_map@.len() <= old(state).waiting_response_map@.len()
                + sample@.len(),
            final(out)@.len() >= old(out)@.len(),
            final(out)@.take(old(out)@.len() as int) == old(out)@,
            forall|q: int|
                old(out)@.len() <= q < final(out)@.len() ==> ((#[trigger] final(out)@[q]) matches
                    Action::Sleep { millis } || exists|w: int|
                    0 <= w < sample@.len() && is_send_of(
                    final(out)@[q],
                    (#[trigger] old(state).member_ids@[sample@[w] as int])@,
                    MessageKind::Request,
                    sent_vote(*old(state), 0),
                    old(state).seq_num,
                    byz_spurious(*old(state)),
                )),
    {
        state.response_buffer = [0, 0];
        let mut i: usize = 0;
        while i < sample.len()
            invariant
                i <= sample@.len(),
                forall|q: int| 0 <= q < sample@.len() ==> (#[trigger] sample@[q])
                    < old(state).member_ids@.len(),
                forall|q: int| 0 <= q < sample@.len() ==> (#[trigger] sample@[q]) as u64 != old(
                    state).order,
                forall|a: int, b: int| 0 <= a < b < sample@.len() ==> sample@[a] != sample@[b],
                peers_unique(old(state).member_ids@),
                *self == *old(self),
                *state == (SnowballState {
                    response_buffer: state.response_buffer,
                    waiting_response_map: state.waiting_response_map,
                    measurements: state.measurements,
                    ..*old(state)
                }),
                state.measurements.convergenza == old(state).measurements.convergenza,
                state.measurements.n_messaggi_inviati == sat_add(
                    old(state).measurements.n_messaggi_inviati,
                    i * msgs_per_turn(*old(state)),
                ),
                out@.len() == old(out)@.len() + i * actions_per_turn(*old(state)),
                state.response_buffer[0] == 0 && state.response_buffer[1] == 0,
                bk_unique(state.waiting_response_map@),
                forall|q: int|
                    0 <= q < i ==> bk_get(
                        state.waiting_response_map@,
                        (#[trigger] old(state).member_ids@[sample@[q] as int])@,
                    ) == Some(Timeout {
                        state: TimeoutState::Active,
                        duration: old(state).hang_timeout,
                        start: now,
                    }),
                forall|p: Seq<u8>|
                    #[trigger] bk_contains(state.waiting_response_map@, p) ==> (bk_contains(
                        old(state).waiting_response_map@, p) || exists|q: int|
                        0 <= q < sample@.len() && p == (#[trigger] old(
                        state).member_ids@[sample@[q] as int])@),
                forall|p: Seq<u8>|
                    #[trigger] bk_contains(old(state).waiting_response_map@, p) ==> bk_contains(
                        state.waiting_response_map@, p),
                state.waiting_response_map@.len() <= old(state).waiting_response_map@.len() + i,
                out@.len() >= old(out)@.len(),
                out@.take(old(out)@.len() as int) == old(out)@,
                forall|q: int|
                    old(out)@.len() <= q < out@.len() ==> ((#[trigger] out@[q]) matches
                        Action::Sleep { millis } || exists|w: int|
                        0 <= w < sample@.len() && is_send_of(
                        out@[q],
                        (#[trigger] old(state).member_ids@[sample@[w] as int])@,
                        MessageKind::Request,
                        sent_vote(*old(state), 0),
                        old(state).seq_num,
                        byz_spurious(*old(state)),
                    )),
            decreases sample@.len() - i,
        {
            let idx = sample[i];
            let peer_id = clone_bytes(&state.member_ids[idx]);
            let ghost mid_out = out@;
            let ghost mid_state = *state;
            let ghost mid_map = state.waiting_response_map@;
            self.send_peer_notification(&peer_id, MessageKind::Request, state.seq_num, state,
                out);
            proof {
                assert(byz_hung(mid_state) == byz_hung(*old(state)));
                assert(byz_sleep(mid_state) == byz_sleep(*old(state)));
                assert(byz_duplicate(mid_state) == byz_duplicate(*old(state)));
                assert(byz_spurious(mid_state) == byz_spurious(*old(state)));
                assert(sent_vote(mid_state, 0) == sent_vote(*old(state), 0));
                assert(msgs_per_turn(mid_state) == msgs_per_turn(*old(state)));
                assert(actions_per_turn(mid_state) == actions_per_turn(*old(state)));
                lemma_sat_add_assoc(old(state).measurements.n_messaggi_inviati, i
                    * msgs_per_turn(*old(state)), msgs_per_turn(*old(state)));
                let m_turn = msgs_per_turn(*old(state));
                let a_turn = actions_per_turn(*old(state));
                assert((i + 1) * m_turn == i * m_turn + m_turn) by (nonlinear_arith);
                assert((i + 1) * a_turn == i * a_turn + a_turn) by (nonlinear_arith);
                assert(mid_state.seq_num == old(state).seq_num);
                assert(mid_state.byzantine_test.max_sleep_delay_millis
                    == old(state).byzantine_test.max_sleep_delay_millis);
                assert(out@.take(old(out)@.len() as int) =~= mid_out.take(
                    old(out)@.len() as int));
                assert(peer_id@ == old(state).member_ids@[sample@[i as int] as int]@);
                assert(out@.take(mid_out.len() as int) == mid_out);
                assert forall|q: int| old(out)@.len() <= q < out@.len() implies ((
                #[trigger] out@[q]) matches Action::Sleep { millis } || exists|w: int|
                    0 <= w < sample@.len() && is_send_of(
                    out@[q],
                    (#[trigger] old(state).member_ids@[sample@[w] as int])@,
                    MessageKind::Request,
                    sent_vote(*old(state), 0),
                    old(state).seq_num,
                    byz_spurious(*old(state)),
                )) by {
                    if q < mid_out.len() {
                        assert(out@[q] == out@.take(mid_out.len() as int)[q]);
                        assert(out@[q] == mid_out[q]);
                    } else {
                        if !byz_hung(*old(state)) {
                            let base = mid_out.len() + (if byz_sleep(*old(state)) {
                                1int
                            } else {
                                0
                            });
                            if q < base {
                                assert(out@[q] == (Action::Sleep {
                                    millis: old(state).byzantine_test.max_sleep_delay_millis,
                                }));
                            }
                            if q >= base {
                                assert(is_send_of(out@[q], peer_id@, MessageKind::Request,
                                    sent_vote(*old(state), 0), old(state).seq_num, byz_spurious(
                                    *old(state))));
                                assert(0 <= i < sample@.len() && is_send_of(out@[q],
                                    (old(state).member_ids@[sample@[i as int] as int])@,
                                    MessageKind::Request, sent_vote(*old(state), 0),
                                    old(state).seq_num, byz_spurious(*old(state))));
                            }
                        }
                    }
                }
            }
            let ghost map_before_add = state.waiting_response_map@;
            state.add_to_waiting_set(peer_id, now);
            proof {
                assert(map_before_add == mid_map);
                assert forall|p: Seq<u8>| #[trigger] bk_contains(state.waiting_response_map@, p)
                    implies (bk_contains(old(state).waiting_response_map@, p) || exists|q: int|
                    0 <= q < sample@.len() && p == (#[trigger] old(
                    state).member_ids@[sample@[q] as int])@) by {
                    if p != peer_id@ {
                        assert(bk_get(state.waiting_response_map@, p) == bk_get(mid_map, p));
                        assert(bk_contains(mid_map, p));
                    } else {
                        assert(0 <= i < sample@.len() && p == (old(
                        state).member_ids@[sample@[i as int] as int])@);
                    }
                }
                assert forall|q: int| 0 <= q < i + 1 implies bk_get(
                    state.waiting_response_map@,
                    (#[trigger] old(state).member_ids@[sample@[q] as int])@,
                ) == Some(Timeout {
                    state: TimeoutState::Active,
                    duration: old(state).hang_timeout,
                    start: now,
                }) by {
                    if q < i {
                        assert(old(state).member_ids@[sample@[q] as int]@ != peer_id@) by {
                            assert(sample@[q] != sample@[i as int]);
                        }
                        assert(bk_get(state.waiting_response_map@,
                            old(state).member_ids@[sample@[q] as int]@) == bk_get(mid_map,
                            old(state).member_ids@[sample@[q] as int]@));
                    }
                }
            }
            i += 1;
        }
    }

    /// Begin a new decision round for a block: bump the sequence number,
    /// prefer the block, sample `k` members and poll them.
    pub fn handle_block_new(&mut self, block_id: BlockId, state: &mut SnowballState, now: u64,
        out: &mut Vec<Action>)
        requires
            old(state).wf(),
            old(state).phase == SnowballPhase::Idle,
            old(state).seq_num < u64::MAX,
            block_id@.len() > 0,
            bk_contains(old(state).measurements.convergenza@, block_id@),
        ensures
            *final(self) == *old(self),
            final(state).wf(),
            final(state).seq_num == old(state).seq_num + 1,
            final(state).phase == SnowballPhase::Listening,
            final(state).decision_block@ == block_id@,
            dm_get(final(state).decision_map@, final(state).seq_num) == Some(
                SnowballDecisionState::OK),
            forall|k2: u64| k2 != old(state).seq_num + 1 ==> #[trigger] dm_get(
                final(state).decision_map@, k2) == dm_get(old(state).decision_map@, k2),
            final(state).last_color == SnowballDecisionState::OK,
            final(state).confidence_counter == 0,
            final(state).decision_array[0] == 0 && final(state).decision_array[1] == 0,
            final(state).response_buffer[0] == 0 && final(state).response_buffer[1] == 0,
            final(state).waiting_response_map@.len() == old(state).k,
            forall|p: Seq<u8>|
                #[trigger] bk_contains(final(state).waiting_response_map@, p) ==> bk_get(
                    final(state).waiting_response_map@, p) == Some(Timeout {
                    state: TimeoutState::Active,
                    duration: old(state).hang_timeout,
                    start: now,
                }),
            final(state).measurements.n_messaggi_inviati == sat_add(
                old(state).measurements.n_messaggi_inviati,
                old(state).k * msgs_per_turn(*old(state)),
            ),
            final(out)@.len() == old(out)@.len() + old(state).k * actions_per_turn(
                *old(state)),
            final(state).member_ids == old(state).member_ids,
            final(state).chain_head == old(state).chain_head,
            final(state).id == old(state).id,
            final(state).order == old(state).order,
            final(state).alfa == old(state).alfa && final(state).beta == old(state).beta
                && final(state).k == old(state).k,
            final(state).measurements.convergenza == old(state).measurements.convergenza,
            final(out)@.len() >= old(out)@.len(),
            final(out)@.take(old(out)@.len() as int) == old(out)@,
            forall|q: int|
                old(out)@.len() <= q < final(out)@.len() ==> ((#[trigger] final(out)@[q]) matches
                    Action::Sleep { millis } || exists|w: Seq<u8>|
                    peers_contain(old(state).member_ids@, w) && w != old(state).id@ && is_send_of(
                    final(out)@[q],
                    w,
                    MessageKind::Request,
                    sent_vote(*old(state), 0),
                    (old(state).seq_num + 1) as u64,
                    byz_spurious(*old(state)),
                )),
    {
        state.decision_block = block_id;
        state.seq_num = state.seq_num + 1;
        crate::state::decision_map_set(&mut state.decision_map, state.seq_num,
            SnowballDecisionState::OK);
        state.last_color = SnowballDecisionState::OK;
        state.confidence_counter = 0;
        state.decision_array = [0, 0];
        let nlen = state.member_ids.len();
        proof {
            assert(state.k < nlen);
        }
        let sample = self.select_node_sample(state, state.k as usize);
        let ghost sample_view = sample@;
        self.prepare_and_forward_peer_requests(sample, state, now, out);
        state.switch_phase();
        proof {
            // exactly k peers are now being waited on: at most k entries
            // were added to an empty map, and the k sampled members are
            // distinct keys that are all present
            let keys = Seq::new(sample_view.len(), |q: int| old(
                state).member_ids@[sample_view[q] as int]@);
            assert forall|a: int, b: int| 0 <= a < b < keys.len() implies keys[a] != keys[b] by {
                assert(sample_view[a] != sample_view[b]);
            }
            assert forall|q: int| 0 <= q < keys.len() implies bk_contains(
                state.waiting_response_map@, #[trigger] keys[q]) by {
                assert(bk_get(state.waiting_response_map@,
                    old(state).member_ids@[sample_view[q] as int]@) is Some);
            }
            crate::state::lemma_bk_keys_bound(keys, state.waiting_response_map@);
            assert(state.waiting_response_map@.len() == old(state).k);
            // every waited-on peer is a member other than this node
            assert forall|p: Seq<u8>| bk_contains(state.waiting_response_map@, p) implies
                #[trigger] peers_contain(state.member_ids@, p) by {
                let q = choose|q: int| 0 <= q < sample_view.len() && p == (#[trigger] old(
                    state).member_ids@[sample_view[q] as int])@;
                assert(state.member_ids@[sample_view[q] as int]@ == p);
            }
            assert forall|p: Seq<u8>| #[trigger] bk_contains(state.waiting_response_map@, p)
                implies p != state.id@ by {
                let q = choose|q: int| 0 <= q < sample_view.len() && p == (#[trigger] old(
                    state).member_ids@[sample_view[q] as int])@;
                if p == state.id@ {
                    assert(old(state).member_ids@[sample_view[q] as int]@ == old(
                        state).member_ids@[old(state).order as int]@);
                    assert(sample_view[q] as u64 == old(state).order);
                }
            }
            // every waiting entry was sampled this round and so carries a
            // fresh started timeout
            assert forall|p: Seq<u8>| #[trigger] bk_contains(state.waiting_response_map@, p)
                implies bk_get(state.waiting_response_map@, p) == Some(Timeout {
                state: TimeoutState::Active,
                duration: old(state).hang_timeout,
                start: now,
            }) by {
                let q = choose|q: int| 0 <= q < sample_view.len() && p == (#[trigger] old(
                    state).member_ids@[sample_view[q] as int])@;
                assert(bk_get(state.waiting_response_map@,
                    old(state).member_ids@[sample_view[q] as int]@) is Some);
            }
            // restate the emitted requests in terms of member identifiers
            assert forall|q: int| old(out)@.len() <= q < final(out)@.len() implies ((
            #[trigger] final(out)@[q]) matches Action::Sleep { millis } || exists|w: Seq<u8>|
                peers_contain(old(state).member_ids@, w) && w != old(state).id@ && is_send_of(
                final(out)@[q],
                w,
                MessageKind::Request,
                sent_vote(*old(state), 0),
                (old(state).seq_num + 1) as u64,
                byz_spurious(*old(state)),
            )) by {
                if !(final(out)@[q] matches Action::Sleep { millis }) {
                    let w = choose|w: int| 0 <= w < sample_view.len() && is_send_of(
                        final(out)@[q], (#[trigger] old(
                        state).member_ids@[sample_view[w] as int])@, MessageKind::Request,
                        sent_vote(*old(state), 0), (old(state).seq_num + 1) as u64, byz_spurious(
                        *old(state)));
                    let wid = old(state).member_ids@[sample_view[w] as int]@;
                    assert(peers_contain(old(state).member_ids@, wid));
                    assert(wid != old(state).id@) by {
                        if wid == old(state).id@ {
                            assert(old(state).member_ids@[sample_view[w] as int]@ == old(
                                state).member_ids@[old(state).order as int]@);
                            assert(sample_view[w] as u64 == old(state).order);
                        }
                    }
                }
            }
        }
    }
}

impl SnowballNode {
    /// The colour at a tally index.
    pub fn usize_to_decision_state(&mut self, i: usize) -> (r: SnowballDecisionState)
        requires
            i == 0 || i == 1,
        ensures
            *final(self) == *old(self),
            r == color_of(i as int),
    {
        if i == 1 {
            SnowballDecisionState::OK
        } else {
            SnowballDecisionState::KO
        }
    }

    /// The tally index of a colour.
    pub fn decision_state_to_u8(&mut self, decision: SnowballDecisionState) -> (r: u8)
        requires
            decision != SnowballDecisionState::Undecided,
        ensures
            *final(self) == *old(self),
            r as int == color_index(decision),
    {
        match decision {
            SnowballDecisionState::OK => 1,
            SnowballDecisionState::KO => 0,
            SnowballDecisionState::Undecided => {
                proof {
                    assert(false);
                }
                0
            }
        }
    }

    /// Carry out the decision for the current sequence number: commit the
    /// block (and adopt it as chain head) if the advocated colour is OK,
    /// fail it otherwise; record the elapsed time; drop the block from the
    /// queue; as the proposer, start assembling the next block; and return
    /// to the idle phase with the round bookkeeping cleared.
    pub fn handle_decision(&mut self, state: &mut SnowballState, now_nanos: u128,
        out: &mut Vec<Action>)
        requires
            old(state).wf_base(),
            old(state).phase == SnowballPhase::Finishing,
            dm_contains(old(state).decision_map@, old(state).seq_num),
            bk_contains(old(state).measurements.convergenza@, old(state).decision_block@),
        ensures
            final(state).wf(),
            final(state).phase == SnowballPhase::Idle,
            final(state).seq_num == old(state).seq_num,
            final(state).decision_map == old(state).decision_map,
            final(state).last_color == old(state).last_color,
            final(state).confidence_counter == old(state).confidence_counter,
            final(state).decision_array == old(state).decision_array,
            final(state).member_ids == old(state).member_ids,
            final(state).decision_block == old(state).decision_block,
            final(state).id == old(state).id && final(state).order == old(state).order,
            final(state).alfa == old(state).alfa && final(state).beta == old(state).beta
                && final(state).k == old(state).k,
            final(state).response_buffer[0] == 0 && final(state).response_buffer[1] == 0,
            final(state).waiting_response_map@.len() == 0,
            ({
                let dec = dm_get(old(state).decision_map@, old(state).seq_num)->0;
                &&& (dec == SnowballDecisionState::OK ==> final(state).chain_head@ == old(
                state).decision_block@)
                &&& (dec != SnowballDecisionState::OK ==> final(state).chain_head == old(
                state).chain_head)
                &&& final(out)@.len() == old(out)@.len() + 1 + (if old(state).order == 0 {
                    1int
                } else {
                    0
                })
                &&& final(out)@.take(old(out)@.len() as int) == old(out)@
                &&& (dec == SnowballDecisionState::OK ==> (final(out)@[old(out)@.len() as int]
                    matches Action::CommitBlock { block_id } && block_id@ == old(
                state).decision_block@))
                &&& (dec != SnowballDecisionState::OK ==> (final(out)@[old(out)@.len() as int]
                    matches Action::FailBlock { block_id } && block_id@ == old(
                state).decision_block@))
                &&& (old(state).order == 0 ==> final(out)@[old(out)@.len() as int + 1]
                    == Action::InitializeBlock)
            }),
            // the elapsed time replaces the start timestamp; other blocks keep
            // theirs, and no message leaves here
            final(state).measurements.n_messaggi_inviati
                == old(state).measurements.n_messaggi_inviati,
            bk_get(final(state).measurements.convergenza@, old(state).decision_block@) == Some(
                ({
                    let started = bk_get(old(state).measurements.convergenza@, old(
                    state).decision_block@)->0;
                    if now_nanos >= started {
                        (now_nanos - started) as u128
                    } else {
                        0u128
                    }
                }),
            ),
            forall|k2: Seq<u8>| k2 != old(state).decision_block@ ==> #[trigger] bk_get(
                final(state).measurements.convergenza@, k2) == bk_get(
                old(state).measurements.convergenza@, k2),
            final(self).block_queue@ == (if old(self).block_queue@.len() > 0 {
                old(self).block_queue@.skip(1)
            } else {
                old(self).block_queue@
            }),
    {
        let decision = match crate::state::decision_map_get(&state.decision_map, state.seq_num) {
            Some(d) => d,
            None => {
                proof {
                    assert(false);
                }
                SnowballDecisionState::Undecided
            }
        };
        if matches!(decision, SnowballDecisionState::OK) {
            out.push(Action::CommitBlock { block_id: clone_bytes(&state.decision_block) });
            state.chain_head = clone_bytes(&state.decision_block);
        } else {
            out.push(Action::FailBlock { block_id: clone_bytes(&state.decision_block) });
        }
        let db = clone_bytes(&state.decision_block);
        let _ = state.set_block_commit_timestamp(db, now_nanos);
        if self.block_queue.len() > 0 {
            let _ = self.block_queue.remove(0);
            proof {
                assert(self.block_queue@ =~= old(self).block_queue@.skip(1));
            }
        }
        if state.order == 0 {
            out.push(Action::InitializeBlock);
        }
        state.switch_phase();
        state.response_buffer = [0, 0];
        state.waiting_response_map.clear();
        proof {
            assert(final(out)@.take(old(out)@.len() as int) =~= old(out)@);
            assert(forall|p: Seq<u8>| !bk_contains(state.waiting_response_map@, p));
        }
    }

    /// The core Snowball step, run when the round's tallies are complete:
    /// if one colour collected at least `alfa` of the `k` votes, prefer it
    /// when it overtakes the current tip, grow or reset confidence in it,
    /// and decide once confidence reaches `beta`; otherwise reset
    /// confidence. Every continuing path polls a fresh sample.
    pub fn on_values_ready(&mut self, state: &mut SnowballState, now_millis: u64,
        now_nanos: u128, out: &mut Vec<Action>)
        requires
            old(state).wf_base(),
            old(state).phase == SnowballPhase::Listening,
            old(state).response_buffer[0] + old(state).response_buffer[1] == old(state).k,
            old(state).confidence_counter < old(state).beta,
        ensures
            final(state).wf(),
            final(state).seq_num == old(state).seq_num,
            final(state).member_ids == old(state).member_ids,
            final(state).id == old(state).id && final(state).order == old(state).order,
            final(state).alfa == old(state).alfa && final(state).beta == old(state).beta
                && final(state).k == old(state).k,
            final(state).decision_block == old(state).decision_block,
            final(state).response_buffer[0] == 0 && final(state).response_buffer[1] == 0,
            final(state).phase == (if ovr_decides(*old(state)) {
                SnowballPhase::Idle
            } else {
                SnowballPhase::Listening
            }),
            (!ovr_any(*old(state)) ==> final(state).confidence_counter == 0
                && final(state).decision_array == old(state).decision_array
                && final(state).last_color == old(state).last_color
                && final(state).decision_map == old(state).decision_map),
            (ovr_any(*old(state)) ==> final(state).confidence_counter == ovr_newconf(*old(state))
                && final(state).decision_array == ovr_newarr(*old(state))
                && final(state).last_color == ovr_color(*old(state))
                && dm_get(final(state).decision_map@, old(state).seq_num) == Some(ovr_tip(
                *old(state)))
                && (forall|k2: u64| k2 != old(state).seq_num ==> #[trigger] dm_get(
                    final(state).decision_map@, k2) == dm_get(old(state).decision_map@, k2))),
            final(state).chain_head@ == (if ovr_decides(*old(state)) && ovr_tip(*old(state))
                == SnowballDecisionState::OK {
                old(state).decision_block@
            } else {
                old(state).chain_head@
            }),
            final(out)@.take(old(out)@.len() as int) == old(out)@,
            (ovr_decides(*old(state)) ==> {
                &&& final(state).measurements.n_messaggi_inviati
                    == old(state).measurements.n_messaggi_inviati
                &&& bk_get(final(state).measurements.convergenza@, old(
                state).decision_block@) == Some(
                    ({
                        let started = bk_get(old(state).measurements.convergenza@, old(
                        state).decision_block@)->0;
                        if now_nanos >= started {
                            (now_nanos - started) as u128
                        } else {
                            0u128
                        }
                    }),
                )
                &&& final(out)@.len() == old(out)@.len() + 1 + (if old(state).order == 0 {
                    1int
                } else {
                    0
                })
                &&& (ovr_tip(*old(state)) == SnowballDecisionState::OK ==> (final(out)@[old(
                out)@.len() as int] matches Action::CommitBlock { block_id } && block_id@ == old(
                state).decision_block@))
                &&& (ovr_tip(*old(state)) != SnowballDecisionState::OK ==> (final(out)@[old(
                out)@.len() as int] matches Action::FailBlock { block_id } && block_id@ == old(
                state).decision_block@))
                &&& (old(state).order == 0 ==> final(out)@[old(out)@.len() as int + 1]
                    == Action::InitializeBlock)
                &&& final(self).block_queue@ == (if old(self).block_queue@.len() > 0 {
                    old(self).block_queue@.skip(1)
                } else {
                    old(self).block_queue@
                })
                &&& final(state).waiting_response_map@.len() == 0
                &&& bk_contains(final(state).measurements.convergenza@, old(
                state).decision_block@)
                &&& (forall|k2: Seq<u8>| k2 != old(state).decision_block@ ==> #[trigger] bk_get(
                    final(state).measurements.convergenza@, k2) == bk_get(
                    old(state).measurements.convergenza@, k2))
            }),
            (!ovr_decides(*old(state)) ==> {
                &&& *final(self) == *old(self)
                &&& final(state).measurements.convergenza
                    == old(state).measurements.convergenza
                &&& final(state).measurements.n_messaggi_inviati == sat_add(
                    old(state).measurements.n_messaggi_inviati,
                    old(state).k * msgs_per_turn(*old(state)),
                )
                &&& final(out)@.len() == old(out)@.len() + old(state).k * actions_per_turn(
                    *old(state))
                // a fresh sample of k members is now being waited on, each
                // with a started timeout, and the appended actions poll them
                &&& exists|sample_keys: Seq<Seq<u8>>|
                    {
                        &&& sample_keys.len() == old(state).k
                        &&& (forall|a: int, b: int|
                            0 <= a < b < sample_keys.len() ==> sample_keys[a] != sample_keys[b])
                        &&& (forall|q: int|
                            0 <= q < sample_keys.len() ==> peers_contain(
                                old(state).member_ids@,
                                #[trigger] sample_keys[q],
                            ) && sample_keys[q] != old(state).id@)
                        &&& (forall|q: int|
                            0 <= q < sample_keys.len() ==> bk_get(
                                final(state).waiting_response_map@,
                                #[trigger] sample_keys[q],
                            ) == Some(Timeout {
                                state: TimeoutState::Active,
                                duration: old(state).hang_timeout,
                                start: now_millis,
                            }))
                        &&& (forall|q: int|
                            old(out)@.len() <= q < final(out)@.len() ==> ((#[trigger] final(
                            out)@[q]) matches Action::Sleep { millis } || exists|w: int|
                                0 <= w < sample_keys.len() && is_send_of(
                                final(out)@[q],
                                #[trigger] sample_keys[w],
                                MessageKind::Request,
                                sent_vote(*old(state), 0),
                                old(state).seq_num,
                                byz_spurious(*old(state)),
                            )))
                    }
            }),
    {
        let fired0 = state.response_buffer[0] >= state.alfa;
        let fired1 = state.response_buffer[1] >= state.alfa;
        if fired0 || fired1 {
            let i: usize = if fired0 {
                0
            } else {
                1
            };
            let col = self.usize_to_decision_state(i);
            let di: u64 = if state.decision_array[i] < u64::MAX {
                state.decision_array[i] + 1
            } else {
                u64::MAX
            };
            state.decision_array[i] = di;
            let cur = match crate::state::decision_map_get(&state.decision_map, state.seq_num) {
                Some(c) => c,
                None => {
                    proof {
                        assert(false);
                    }
                    SnowballDecisionState::Undecided
                }
            };
            let ci = self.decision_state_to_u8(cur) as usize;
            if state.decision_array[i] > state.decision_array[ci] {
                crate::state::decision_map_set(&mut state.decision_map, state.seq_num, col);
            }
            proof {
                assert(dm_get(state.decision_map@, state.seq_num) == Some(ovr_tip(*old(state))));
            }
            if !(col == state.last_color) {
                state.last_color = col;
                state.confidence_counter = 1;
            } else {
                state.confidence_counter = state.confidence_counter + 1;
            }
            if state.confidence_counter >= state.beta {
                state.switch_phase();
                self.handle_decision(state, now_nanos, out);
            } else {
                let nlen = state.member_ids.len();
                proof {
                    assert(state.k < nlen);
                }
                let ghost mid_state = *state;
                let sample = self.select_node_sample(state, state.k as usize);
                let ghost sample_view = sample@;
                self.prepare_and_forward_peer_requests(sample, state, now_millis, out);
                proof {
                    assert(final(out)@.take(old(out)@.len() as int) =~= old(out)@);
                    assert(msgs_per_turn(mid_state) == msgs_per_turn(*old(state)));
                    assert(actions_per_turn(mid_state) == actions_per_turn(*old(state)));
                    assert(sent_vote(mid_state, 0) == sent_vote(*old(state), 0));
                    assert(byz_spurious(mid_state) == byz_spurious(*old(state)));
                    assert(sample_view.len() == old(state).k);
                    let keys = Seq::new(sample_view.len(), |q: int| old(
                        state).member_ids@[sample_view[q] as int]@);
                    assert forall|a: int, b: int| 0 <= a < b < keys.len() implies keys[a]
                        != keys[b] by {
                        assert(sample_view[a] != sample_view[b]);
                    }
                    assert forall|q: int| 0 <= q < keys.len() implies peers_contain(
                        old(state).member_ids@, #[trigger] keys[q]) && keys[q] != old(
                    state).id@ by {
                        assert(keys[q] == old(state).member_ids@[sample_view[q] as int]@);
                        if keys[q] == old(state).id@ {
                            assert(old(state).member_ids@[sample_view[q] as int]@ == old(
                                state).member_ids@[old(state).order as int]@);
                            assert(sample_view[q] as u64 == old(state).order);
                        }
                    }
                    assert forall|q: int| 0 <= q < keys.len() implies bk_get(
                        final(state).waiting_response_map@, #[trigger] keys[q]) == Some(Timeout {
                        state: TimeoutState::Active,
                        duration: old(state).hang_timeout,
                        start: now_millis,
                    }) by {
                        assert(bk_get(state.waiting_response_map@,
                            mid_state.member_ids@[sample_view[q] as int]@) is Some);
                    }
                    assert forall|q: int| old(out)@.len() <= q < final(out)@.len() implies ((
                    #[trigger] final(out)@[q]) matches Action::Sleep { millis } || exists|w: int|
                        0 <= w < keys.len() && is_send_of(
                        final(out)@[q],
                        #[trigger] keys[w],
                        MessageKind::Request,
                        sent_vote(*old(state), 0),
                        old(state).seq_num,
                        byz_spurious(*old(state)),
                    )) by {
                        if !(final(out)@[q] matches Action::Sleep { millis }) {
                            let w = choose|w: int| 0 <= w < sample_view.len() && is_send_of(
                                final(out)@[q], (#[trigger] mid_state.member_ids@[sample_view[
                                w] as int])@, MessageKind::Request, sent_vote(mid_state, 0),
                                mid_state.seq_num, byz_spurious(mid_state));
                            assert(keys[w] == mid_state.member_ids@[sample_view[w] as int]@);
                            assert(is_send_of(final(out)@[q], keys[w], MessageKind::Request,
                                sent_vote(*old(state), 0), old(state).seq_num, byz_spurious(
                                *old(state))));
                        }
                    }
                    assert(mid_state.measurements.n_messaggi_inviati
                        == old(state).measurements.n_messaggi_inviati);
                    assert({
                        &&& keys.len() == old(state).k
                        &&& (forall|a: int, b: int|
                            0 <= a < b < keys.len() ==> keys[a] != keys[b])
                        &&& (forall|q: int|
                            0 <= q < keys.len() ==> peers_contain(
                                old(state).member_ids@,
                                #[trigger] keys[q],
                            ) && keys[q] != old(state).id@)
                        &&& (forall|q: int|
                            0 <= q < keys.len() ==> bk_get(
                                final(state).waiting_response_map@,
                                #[trigger] keys[q],
                            ) == Some(Timeout {
                                state: TimeoutState::Active,
                                duration: old(state).hang_timeout,
                                start: now_millis,
                            }))
                        &&& (forall|q: int|
                            old(out)@.len() <= q < final(out)@.len() ==> ((#[trigger] final(
                            out)@[q]) matches Action::Sleep { millis } || exists|w: int|
                                0 <= w < keys.len() && is_send_of(
                                final(out)@[q],
                                #[trigger] keys[w],
                                MessageKind::Request,
                                sent_vote(*old(state), 0),
                                old(state).seq_num,
                                byz_spurious(*old(state)),
                            )))
                    });
                }
            }
        } else {
            state.confidence_counter = 0;
            let nlen = state.member_ids.len();
            proof {
                assert(state.k < nlen);
            }
            let ghost mid_state = *state;
            let sample = self.select_node_sample(state, state.k as usize);
            let ghost sample_view = sample@;
            self.prepare_and_forward_peer_requests(sample, state, now_millis, out);
            proof {
                assert(final(out)@.take(old(out)@.len() as int) =~= old(out)@);
                assert(msgs_per_turn(mid_state) == msgs_per_turn(*old(state)));
                assert(actions_per_turn(mid_state) == actions_per_turn(*old(state)));
                assert(sent_vote(mid_state, 0) == sent_vote(*old(state), 0));
                assert(byz_spurious(mid_state) == byz_spurious(*old(state)));
                assert(sample_view.len() == old(state).k);
                let keys = Seq::new(sample_view.len(), |q: int| old(
                    state).member_ids@[sample_view[q] as int]@);
                assert forall|a: int, b: int| 0 <= a < b < keys.len() implies keys[a]
                    != keys[b] by {
                    assert(sample_view[a] != sample_view[b]);
                }
                assert forall|q: int| 0 <= q < keys.len() implies peers_contain(
                    old(state).member_ids@, #[trigger] keys[q]) && keys[q] != old(
                state).id@ by {
                    assert(keys[q] == old(state).member_ids@[sample_view[q] as int]@);
                    if keys[q] == old(state).id@ {
                        assert(old(state).member_ids@[sample_view[q] as int]@ == old(
                            state).member_ids@[old(state).order as int]@);
                        assert(sample_view[q] as u64 == old(state).order);
                    }
                }
                assert forall|q: int| 0 <= q < keys.len() implies bk_get(
                    final(state).waiting_response_map@, #[trigger] keys[q]) == Some(Timeout {
                    state: TimeoutState::Active,
                    duration: old(state).hang_timeout,
                    start: now_millis,
                }) by {
                    assert(bk_get(state.waiting_response_map@,
                        mid_state.member_ids@[sample_view[q] as int]@) is Some);
                }
                assert forall|q: int| old(out)@.len() <= q < final(out)@.len() implies ((
                #[trigger] final(out)@[q]) matches Action::Sleep { millis } || exists|w: int|
                    0 <= w < keys.len() && is_send_of(
                    final(out)@[q],
                    #[trigger] keys[w],
                    MessageKind::Request,
                    sent_vote(*old(state), 0),
                    old(state).seq_num,
                    byz_spurious(*old(state)),
                )) by {
                    if !(final(out)@[q] matches Action::Sleep { millis }) {
                        let w = choose|w: int| 0 <= w < sample_view.len() && is_send_of(
                            final(out)@[q], (#[trigger] mid_state.member_ids@[sample_view[
                            w] as int])@, MessageKind::Request, sent_vote(mid_state, 0),
                            mid_state.seq_num, byz_spurious(mid_state));
                        assert(keys[w] == mid_state.member_ids@[sample_view[w] as int]@);
                        assert(is_send_of(final(out)@[q], keys[w], MessageKind::Request,
                            sent_vote(*old(state), 0), old(state).seq_num, byz_spurious(
                            *old(state))));
                    }
                }
                assert(mid_state.measurements.n_messaggi_inviati
                    == old(state).measurements.n_messaggi_inviati);
                assert({
                    &&& keys.len() == old(state).k
                    &&& (forall|a: int, b: int|
                        0 <= a < b < keys.len() ==> keys[a] != keys[b])
                    &&& (forall|q: int|
                        0 <= q < keys.len() ==> peers_contain(
                            old(state).member_ids@,
                            #[trigger] keys[q],
                        ) && keys[q] != old(state).id@)
                    &&& (forall|q: int|
                        0 <= q < keys.len() ==> bk_get(
                            final(state).waiting_response_map@,
                            #[trigger] keys[q],
                        ) == Some(Timeout {
                            state: TimeoutState::Active,
                            duration: old(state).hang_timeout,
                            start: now_millis,
                        }))
                    &&& (forall|q: int|
                        old(out)@.len() <= q < final(out)@.len() ==> ((#[trigger] final(
                        out)@[q]) matches Action::Sleep { millis } || exists|w: int|
                            0 <= w < keys.len() && is_send_of(
                            final(out)@[q],
                            #[trigger] keys[w],
                            MessageKind::Request,
                            sent_vote(*old(state), 0),
                            old(state).seq_num,
                            byz_spurious(*old(state)),
                        )))
                });
            }
        }
    }
}

// ---------------------------------------------------------------------------
// Vote handling
// ---------------------------------------------------------------------------

/// The tally at index `i` after counting one more vote of value `vote`.
pub open spec fn vote_tally(s: SnowballState, vote: u8, i: int) -> int {
    s.response_buffer[i] + (if vote as int == i {
        1int
    } else {
        0
    })
}

/// Whether the KO arm fires once the vote is counted.
pub open spec fn pm_fired0(s: SnowballState, vote: u8) -> bool {
    vote_tally(s, vote, 0) >= s.alfa
}

/// Whether any arm fires once the vote is counted.
pub open spec fn pm_any(s: SnowballState, vote: u8) -> bool {
    vote_tally(s, vote, 0) >= s.alfa || vote_tally(s, vote, 1) >= s.alfa
}

/// The colour whose arm acts once the vote is counted.
pub open spec fn pm_color(s: SnowballState, vote: u8) -> SnowballDecisionState {
    if pm_fired0(s, vote) {
        SnowballDecisionState::KO
    } else {
        SnowballDecisionState::OK
    }
}

/// The confidence counter after the acting arm.
pub open spec fn pm_newconf(s: SnowballState, vote: u8) -> int {
    if pm_color(s, vote) != s.last_color {
        1
    } else {
        s.confidence_counter + 1
    }
}

/// Whether counting this vote completes a deciding round.
pub open spec fn pm_decides(s: SnowballState, vote: u8) -> bool {
    pm_any(s, vote) && pm_newconf(s, vote) >= s.beta
}

/// The cumulative preference counts after the acting arm.
pub open spec fn pm_newarr(s: SnowballState, vote: u8) -> [u64; 2] {
    let i = color_index(pm_color(s, vote));
    let di: u64 = if s.decision_array[i] < u64::MAX {
        (s.decision_array[i] + 1) as u64
    } else {
        u64::MAX
    };
    if i == 0 {
        [di, s.decision_array[1]]
    } else {
        [s.decision_array[0], di]
    }
}

/// The colour advocated after the round completed by this vote.
pub open spec fn pm_tip(s: SnowballState, vote: u8) -> SnowballDecisionState {
    let arr = pm_newarr(s, vote);
    let i = color_index(pm_color(s, vote));
    let ci = color_index(dm_get(s.decision_map@, s.seq_num)->0);
    if arr[i] > arr[ci] {
        pm_color(s, vote)
    } else {
        dm_get(s.decision_map@, s.seq_num)->0
    }
}

impl SnowballNode {
    /// Pick one member that is not this node and not already being waited
    /// on, start waiting on it, and poll it.
    fn resample_one(&mut self, state: &mut SnowballState, now: u64, out: &mut Vec<Action>)
        requires
            peers_unique(old(state).member_ids@),
            old(state).order < old(state).member_ids@.len(),
            old(state).member_ids@[old(state).order as int]@ == old(state).id@,
            bk_unique(old(state).waiting_response_map@),
            forall|p: Seq<u8>| bk_contains(old(state).waiting_response_map@, p) ==> #[trigger]
                peers_contain(old(state).member_ids@, p),
            forall|p: Seq<u8>| #[trigger] bk_contains(old(state).waiting_response_map@, p) ==> p
                != old(state).id@,
            old(state).waiting_response_map@.len() + 2 <= old(state).member_ids@.len(),
        ensures
            *final(self) == *old(self),
            *final(state) == (SnowballState {
                waiting_response_map: final(state).waiting_response_map,
                measurements: final(state).measurements,
                ..*old(state)
            }),
            final(state).measurements.convergenza == old(state).measurements.convergenza,
            final(state).measurements.n_messaggi_inviati == sat_add(
                old(state).measurements.n_messaggi_inviati, msgs_per_turn(*old(state))),
            bk_unique(final(state).waiting_response_map@),
            final(state).waiting_response_map@.len() == old(state).waiting_response_map@.len()
                + 1,
            forall|p: Seq<u8>| #[trigger] bk_contains(old(state).waiting_response_map@, p)
                ==> bk_get(final(state).waiting_response_map@, p) == bk_get(
                old(state).waiting_response_map@, p),
            final(out)@.len() == old(out)@.len() + actions_per_turn(*old(state)),
            final(out)@.take(old(out)@.len() as int) == old(out)@,
            byz_hung(*old(state)) ==> final(out)@ == old(out)@,
            exists|widx: int|
                {
                    &&& 0 <= widx < old(state).member_ids@.len()
                    &&& widx != old(state).order
                    &&& !bk_contains(old(state).waiting_response_map@, (#[trigger] old(
                    state).member_ids@[widx])@)
                    &&& bk_get(final(state).waiting_response_map@, old(
                    state).member_ids@[widx]@) == Some(Timeout {
                        state: TimeoutState::Active,
                        duration: old(state).hang_timeout,
                        start: now,
                    })
                    &&& (forall|k2: Seq<u8>|
                        k2 != old(state).member_ids@[widx]@ ==> #[trigger] bk_get(
                            final(state).waiting_response_map@,
                            k2,
                        ) == bk_get(old(state).waiting_response_map@, k2))
                    &&& (forall|q: int|
                        old(out)@.len() <= q < final(out)@.len() ==> ((#[trigger] final(
                        out)@[q]) matches Action::Sleep { millis } || is_send_of(
                            final(out)@[q],
                            old(state).member_ids@[widx]@,
                            MessageKind::Request,
                            sent_vote(*old(state), 0),
                            old(state).seq_num,
                            byz_spurious(*old(state)),
                        )))
                },
    {
        let n = state.member_ids.len();
        let mut pool: Vec<usize> = Vec::new();
        let ghost skipped: Seq<Seq<u8>> = Seq::empty();
        let ghost skidx: Seq<int> = Seq::empty();
        let mut skipped_ghost = Ghost(skipped);
        let mut skidx_ghost = Ghost(skidx);
        let mut i: usize = 0;
        while i < n
            invariant
                i <= n,
                n == state.member_ids@.len(),
                *state == *old(state),
                state.order < n,
                peers_unique(state.member_ids@),
                bk_unique(state.waiting_response_map@),
                forall|q: int| 0 <= q < pool@.len() ==> (#[trigger] pool@[q]) < i,
                forall|q: int| 0 <= q < pool@.len() ==> (#[trigger] pool@[q]) as u64
                    != state.order,
                forall|q: int| 0 <= q < pool@.len() ==> !bk_contains(state.waiting_response_map@,
                    state.member_ids@[#[trigger] pool@[q] as int]@),
                forall|a: int, b: int| 0 <= a < b < pool@.len() ==> pool@[a] != pool@[b],
                pool@.len() + skipped_ghost@.len() + (if (i as u64) > state.order {
                    1int
                } else {
                    0
                }) == i,
                skipped_ghost@.len() == skidx_ghost@.len(),
                forall|a: int| 0 <= a < skidx_ghost@.len() ==> 0 <= (#[trigger] skidx_ghost@[a])
                    < i,
                forall|a: int| 0 <= a < skidx_ghost@.len() ==> skipped_ghost@[a]
                    == state.member_ids@[#[trigger] skidx_ghost@[a]]@,
                forall|a: int, b: int| 0 <= a < b < skidx_ghost@.len() ==> skidx_ghost@[a]
                    < skidx_ghost@[b],
                forall|a: int| 0 <= a < skipped_ghost@.len() ==> bk_contains(
                    state.waiting_response_map@, #[trigger] skipped_ghost@[a]),
            decreases n - i,
        {
            if i as u64 != state.order {
                if crate::state::bk_has(&state.waiting_response_map, &state.member_ids[i]) {
                    proof {
                        skipped_ghost@ = skipped_ghost@.push(state.member_ids@[i as int]@);
                        skidx_ghost@ = skidx_ghost@.push(i as int);
                    }
                } else {
                    pool.push(i);
                }
            }
            i += 1;
        }
        proof {
            assert forall|a: int, b: int| 0 <= a < b < skipped_ghost@.len() implies
                skipped_ghost@[a] != skipped_ghost@[b] by {
                assert(skidx_ghost@[a] < skidx_ghost@[b]);
                assert(skipped_ghost@[a] == state.member_ids@[skidx_ghost@[a]]@);
                assert(skipped_ghost@[b] == state.member_ids@[skidx_ghost@[b]]@);
            }
            crate::state::lemma_bk_keys_bound(skipped_ghost@, state.waiting_response_map@);
            assert(pool@.len() >= 1);
        }
        let j = random_below(pool.len());
        let widx = pool[j];
        let peer = clone_bytes(&state.member_ids[widx]);
        let ghost mid_map = state.waiting_response_map@;
        state.add_to_waiting_set(clone_bytes(&peer), now);
        let ghost mid_out = out@;
        let ghost mid_state = *state;
        self.send_peer_notification(&peer, MessageKind::Request, state.seq_num, state, out);
        proof {
            assert(final(out)@.take(old(out)@.len() as int) =~= old(out)@);
            assert(byz_hung(mid_state) == byz_hung(*old(state)));
            assert(byz_sleep(mid_state) == byz_sleep(*old(state)));
            assert(byz_duplicate(mid_state) == byz_duplicate(*old(state)));
            assert(byz_spurious(mid_state) == byz_spurious(*old(state)));
            assert(sent_vote(mid_state, 0) == sent_vote(*old(state), 0));
            assert(msgs_per_turn(mid_state) == msgs_per_turn(*old(state)));
            assert(actions_per_turn(mid_state) == actions_per_turn(*old(state)));
            let w = widx as int;
            assert(peer@ == old(state).member_ids@[w]@);
            assert(!bk_contains(old(state).waiting_response_map@, old(state).member_ids@[w]@));
            assert(bk_get(state.waiting_response_map@, old(state).member_ids@[w]@)
                == Some(Timeout {
                state: TimeoutState::Active,
                duration: old(state).hang_timeout,
                start: now,
            }));
            assert forall|q: int| old(out)@.len() <= q < final(out)@.len() implies ((
            #[trigger] final(out)@[q]) matches Action::Sleep { millis } || is_send_of(
                final(out)@[q],
                old(state).member_ids@[w]@,
                MessageKind::Request,
                sent_vote(*old(state), 0),
                old(state).seq_num,
                byz_spurious(*old(state)),
            )) by {
                if !byz_hung(*old(state)) {
                    let base = mid_out.len() + (if byz_sleep(*old(state)) {
                        1int
                    } else {
                        0
                    });
                    if q < base {
                        assert(final(out)@[q] == (Action::Sleep {
                            millis: old(state).byzantine_test.max_sleep_delay_millis,
                        }));
                    } else {
                        assert(is_send_of(final(out)@[q], peer@, MessageKind::Request, sent_vote(
                            *old(state), 0), old(state).seq_num, byz_spurious(*old(state))));
                    }
                }
            }
            assert(0 <= w < old(state).member_ids@.len() && w != old(state).order);
            assert forall|k2: Seq<u8>| k2 != old(state).member_ids@[w]@ implies #[trigger]
                bk_get(final(state).waiting_response_map@, k2) == bk_get(
                old(state).waiting_response_map@, k2) by {
                assert(bk_get(state.waiting_response_map@, k2) == bk_get(mid_map, k2));
            }
        }
    }
}

impl SnowballNode {
    /// Handle one inbound peer message.
    ///
    /// A `request` is answered with this node's colour for the requested
    /// sequence number (or `unavailable` when it lies ahead). A `response`
    /// from a peer being waited on is tallied, and a complete round runs the
    /// Snowball step. An `unavailable` reply replaces the sampled peer with
    /// a fresh one. Anything out of phase, unsolicited or malformed is
    /// dropped without side effect.
    #[verifier::rlimit(100)]
    pub fn on_peer_message(&mut self, kind: MessageKind, sender_id: &PeerId,
        payload: SnowballMessage, state: &mut SnowballState, now_millis: u64, now_nanos: u128,
        out: &mut Vec<Action>) -> (r: bool)
        requires
            old(state).wf(),
        ensures
            final(state).wf(),
            final(state).seq_num == old(state).seq_num,
            final(state).member_ids == old(state).member_ids,
            final(state).id == old(state).id && final(state).order == old(state).order,
            final(state).alfa == old(state).alfa && final(state).beta == old(state).beta
                && final(state).k == old(state).k,
            final(out)@.take(old(out)@.len() as int) == old(out)@,
            (kind == MessageKind::Undefined ==> r == true && *final(self) == *old(self)
                && *final(state) == *old(state) && final(out)@ == old(out)@),
            (kind == MessageKind::Request ==> {
                &&& *final(self) == *old(self)
                &&& *final(state) == (SnowballState {
                    measurements: final(state).measurements,
                    ..*old(state)
                })
                &&& final(state).measurements.convergenza == old(state).measurements.convergenza
                &&& (payload.seq_num > old(state).seq_num ==> {
                    &&& r == false
                    &&& final(out)@.len() == old(out)@.len() + actions_per_turn(*old(state))
                    &&& final(state).measurements.n_messaggi_inviati == sat_add(
                        old(state).measurements.n_messaggi_inviati,
                        msgs_per_turn(*old(state)),
                    )
                    &&& forall|q: int|
                        old(out)@.len() <= q < final(out)@.len() ==> ((#[trigger] final(
                        out)@[q]) matches Action::Sleep { millis } || is_send_of(
                            final(out)@[q],
                            sender_id@,
                            MessageKind::Unavailable,
                            sent_vote(*old(state), 0),
                            payload.seq_num,
                            byz_spurious(*old(state)),
                        ))
                })
                &&& (payload.seq_num <= old(state).seq_num && !dm_contains(
                    old(state).decision_map@, payload.seq_num) ==> r == false && final(out)@
                    == old(out)@ && *final(state) == *old(state))
                &&& (payload.seq_num <= old(state).seq_num && dm_contains(
                    old(state).decision_map@, payload.seq_num) ==> {
                    &&& r == true
                    &&& final(out)@.len() == old(out)@.len() + actions_per_turn(*old(state))
                    &&& final(state).measurements.n_messaggi_inviati == sat_add(
                        old(state).measurements.n_messaggi_inviati,
                        msgs_per_turn(*old(state)),
                    )
                    &&& forall|q: int|
                        old(out)@.len() <= q < final(out)@.len() ==> ((#[trigger] final(
                        out)@[q]) matches Action::Sleep { millis } || is_send_of(
                            final(out)@[q],
                            sender_id@,
                            MessageKind::Response,
                            sent_vote(
                                *old(state),
                                if dm_get(old(state).decision_map@, payload.seq_num)->0
                                    == SnowballDecisionState::OK {
                                    1
                                } else {
                                    0
                                },
                            ),
                            old(state).seq_num,
                            byz_spurious(*old(state)),
                        ))
                })
            }),
            (kind == MessageKind::Response ==> {
                &&& (old(state).phase != SnowballPhase::Listening ==> r == false && *final(self)
                    == *old(self) && *final(state) == *old(state) && final(out)@ == old(out)@)
                &&& (old(state).phase == SnowballPhase::Listening && !bk_contains(
                    old(state).waiting_response_map@, sender_id@) ==> r == false && *final(self)
                    == *old(self) && *final(state) == *old(state) && final(out)@ == old(out)@)
                &&& (old(state).phase == SnowballPhase::Listening && bk_contains(
                    old(state).waiting_response_map@, sender_id@) ==> {
                    &&& (payload.vote != 0 && payload.vote != 1 ==> {
                        &&& r == false
                        &&& final(out)@ == old(out)@
                        &&& *final(self) == *old(self)
                        // only the waiting map changes: the sender leaves it
                        &&& *final(state) == (SnowballState {
                            waiting_response_map: final(state).waiting_response_map,
                            ..*old(state)
                        })
                        &&& !bk_contains(final(state).waiting_response_map@, sender_id@)
                        &&& final(state).waiting_response_map@.len() == old(
                        state).waiting_response_map@.len() - 1
                        &&& (forall|k2: Seq<u8>|
                            k2 != sender_id@ ==> #[trigger] bk_get(
                                final(state).waiting_response_map@,
                                k2,
                            ) == bk_get(old(state).waiting_response_map@, k2))
                    })
                    &&& ((payload.vote == 0 || payload.vote == 1) ==> {
                        &&& r == true
                        &&& (vote_tally(*old(state), payload.vote, 0) + vote_tally(
                            *old(state),
                            payload.vote,
                            1,
                        ) < old(state).k ==> {
                            // only the tallies and the waiting map change
                            &&& *final(state) == (SnowballState {
                                response_buffer: final(state).response_buffer,
                                waiting_response_map: final(state).waiting_response_map,
                                ..*old(state)
                            })
                            &&& final(state).response_buffer[0] == vote_tally(*old(state),
                                payload.vote, 0)
                            &&& final(state).response_buffer[1] == vote_tally(*old(state),
                                payload.vote, 1)
                            &&& *final(self) == *old(self)
                            &&& final(out)@ == old(out)@
                            &&& !bk_contains(final(state).waiting_response_map@, sender_id@)
                            &&& final(state).waiting_response_map@.len() == old(
                            state).waiting_response_map@.len() - 1
                            &&& (forall|k2: Seq<u8>|
                                k2 != sender_id@ ==> #[trigger] bk_get(
                                    final(state).waiting_response_map@,
                                    k2,
                                ) == bk_get(old(state).waiting_response_map@, k2))
                        })
                        &&& (vote_tally(*old(state), payload.vote, 0) + vote_tally(
                            *old(state),
                            payload.vote,
                            1,
                        ) == old(state).k ==> {
                            &&& final(state).response_buffer[0] == 0
                                && final(state).response_buffer[1] == 0
                            &&& final(state).phase == (if pm_decides(*old(state), payload.vote) {
                                SnowballPhase::Idle
                            } else {
                                SnowballPhase::Listening
                            })
                            &&& (!pm_any(*old(state), payload.vote) ==> final(
                            state).confidence_counter == 0 && final(state).decision_array == old(
                            state).decision_array && final(state).last_color == old(
                            state).last_color && final(state).decision_map == old(
                            state).decision_map)
                            &&& (pm_any(*old(state), payload.vote) ==> final(
                            state).confidence_counter == pm_newconf(*old(state), payload.vote)
                                && final(state).decision_array == pm_newarr(*old(state),
                                payload.vote) && final(state).last_color == pm_color(*old(state),
                                payload.vote) && dm_get(final(state).decision_map@, old(
                            state).seq_num) == Some(pm_tip(*old(state), payload.vote)))
                            &&& final(state).chain_head@ == (if pm_decides(*old(state),
                                payload.vote) && pm_tip(*old(state), payload.vote)
                                == SnowballDecisionState::OK {
                                old(state).decision_block@
                            } else {
                                old(state).chain_head@
                            })
                            &&& (pm_decides(*old(state), payload.vote) ==> {
                                &&& final(state).measurements.n_messaggi_inviati
                                    == old(state).measurements.n_messaggi_inviati
                                &&& bk_get(final(state).measurements.convergenza@, old(
                                state).decision_block@) == Some(
                                    ({
                                        let started = bk_get(
                                            old(state).measurements.convergenza@,
                                            old(state).decision_block@,
                                        )->0;
                                        if now_nanos >= started {
                                            (now_nanos - started) as u128
                                        } else {
                                            0u128
                                        }
                                    }),
                                )
                                &&& final(out)@.len() == old(out)@.len() + 1 + (if old(
                                state).order == 0 {
                                    1int
                                } else {
                                    0
                                })
                                &&& (pm_tip(*old(state), payload.vote)
                                    == SnowballDecisionState::OK ==> (final(out)@[old(
                                out)@.len() as int] matches Action::CommitBlock { block_id }
                                    && block_id@ == old(state).decision_block@))
                                &&& (pm_tip(*old(state), payload.vote)
                                    != SnowballDecisionState::OK ==> (final(out)@[old(
                                out)@.len() as int] matches Action::FailBlock { block_id }
                                    && block_id@ == old(state).decision_block@))
                                &&& (old(state).order == 0 ==> final(out)@[old(
                                out)@.len() as int + 1] == Action::InitializeBlock)
                                &&& final(self).block_queue@ == (if old(
                                self).block_queue@.len() > 0 {
                                    old(self).block_queue@.skip(1)
                                } else {
                                    old(self).block_queue@
                                })
                                &&& final(state).waiting_response_map@.len() == 0
                            })
                            &&& (!pm_decides(*old(state), payload.vote) ==> {
                                &&& *final(self) == *old(self)
                                &&& final(state).measurements.convergenza == old(
                                state).measurements.convergenza
                                &&& final(state).measurements.n_messaggi_inviati == sat_add(
                                    old(state).measurements.n_messaggi_inviati,
                                    old(state).k * msgs_per_turn(*old(state)),
                                )
                                &&& final(out)@.len() == old(out)@.len() + old(state).k
                                    * actions_per_turn(*old(state))
                                // a fresh sample of k members is polled for the next round
                                &&& exists|sample_keys: Seq<Seq<u8>>|
                                    {
                                        &&& sample_keys.len() == old(state).k
                                        &&& (forall|a: int, b: int|
                                            0 <= a < b < sample_keys.len() ==> sample_keys[a]
                                                != sample_keys[b])
                                        &&& (forall|q: int|
                                            0 <= q < sample_keys.len() ==> peers_contain(
                                                old(state).member_ids@,
                                                #[trigger] sample_keys[q],
                                            ) && sample_keys[q] != old(state).id@)
                                        &&& (forall|q: int|
                                            0 <= q < sample_keys.len() ==> bk_get(
                                                final(state).waiting_response_map@,
                                                #[trigger] sample_keys[q],
                                            ) == Some(Timeout {
                                                state: TimeoutState::Active,
                                                duration: old(state).hang_timeout,
                                                start: now_millis,
                                            }))
                                    }
                            })
                        })
                    })
                })
            }),
            (kind == MessageKind::Unavailable ==> {
                &&& final(state).response_buffer == old(state).response_buffer
                &&& final(state).phase == old(state).phase
                &&& final(state).decision_map == old(state).decision_map
                &&& final(state).chain_head == old(state).chain_head
                &&& *final(self) == *old(self)
                &&& (old(state).phase != SnowballPhase::Listening ==> r == false && *final(state)
                    == *old(state) && final(out)@ == old(out)@)
                &&& (old(state).phase == SnowballPhase::Listening && !bk_contains(
                    old(state).waiting_response_map@, sender_id@) ==> r == false && *final(state)
                    == *old(state) && final(out)@ == old(out)@)
                &&& (old(state).phase == SnowballPhase::Listening && bk_contains(
                    old(state).waiting_response_map@, sender_id@) ==> {
                    &&& r == true
                    &&& *final(state) == (SnowballState {
                        waiting_response_map: final(state).waiting_response_map,
                        measurements: final(state).measurements,
                        ..*old(state)
                    })
                    &&& final(state).waiting_response_map@.len() == old(
                    state).waiting_response_map@.len()
                    &&& final(state).measurements.convergenza == old(
                    state).measurements.convergenza
                    &&& final(state).measurements.n_messaggi_inviati == sat_add(
                        old(state).measurements.n_messaggi_inviati,
                        msgs_per_turn(*old(state)),
                    )
                    &&& final(out)@.len() == old(out)@.len() + actions_per_turn(*old(state))
                    // the sender is replaced: one member that was not being
                    // waited on (or the sender itself, drawn afresh) enters
                    // the map with a started timeout and is polled
                    &&& exists|w: int|
                        {
                            &&& 0 <= w < old(state).member_ids@.len()
                            &&& w != old(state).order
                            &&& ((#[trigger] old(state).member_ids@[w])@ == sender_id@
                                || !bk_contains(old(state).waiting_response_map@, old(
                            state).member_ids@[w]@))
                            &&& bk_get(final(state).waiting_response_map@, old(
                            state).member_ids@[w]@) == Some(Timeout {
                                state: TimeoutState::Active,
                                duration: old(state).hang_timeout,
                                start: now_millis,
                            })
                            &&& (old(state).member_ids@[w]@ != sender_id@ ==> !bk_contains(
                                final(state).waiting_response_map@,
                                sender_id@,
                            ))
                            &&& (forall|k2: Seq<u8>|
                                k2 != old(state).member_ids@[w]@ && k2 != sender_id@
                                    ==> #[trigger] bk_get(final(state).waiting_response_map@, k2)
                                    == bk_get(old(state).waiting_response_map@, k2))
                            &&& (forall|q: int|
                                old(out)@.len() <= q < final(out)@.len() ==> ((#[trigger] final(
                                out)@[q]) matches Action::Sleep { millis } || is_send_of(
                                    final(out)@[q],
                                    old(state).member_ids@[w]@,
                                    MessageKind::Request,
                                    sent_vote(*old(state), 0),
                                    old(state).seq_num,
                                    byz_spurious(*old(state)),
                                )))
                        }
                })
            }),
    {
        match kind {
            MessageKind::Request => {
                if payload.seq_num > state.seq_num {
                    self.send_peer_notification(sender_id, MessageKind::Unavailable,
                        payload.seq_num, state, out);
                    proof {
                        assert(final(out)@.take(old(out)@.len() as int) =~= old(out)@);
                    }
                    return false;
                }
                let seq_value = crate::state::decision_map_get(&state.decision_map,
                    payload.seq_num);
                match seq_value {
                    None => false,
                    Some(c) => {
                        let current_value: u8 = if matches!(c, SnowballDecisionState::OK) {
                            1
                        } else {
                            0
                        };
                        self.send_peer_message(sender_id, MessageKind::Response, current_value,
                            state.seq_num, state, out);
                        proof {
                            assert(final(out)@.take(old(out)@.len() as int) =~= old(out)@);
                        }
                        true
                    }
                }
            }
            MessageKind::Response => {
                if !matches!(state.phase, SnowballPhase::Listening) {
                    return false;
                }
                if !crate::state::bk_has(&state.waiting_response_map, sender_id) {
                    return false;
                }
                crate::state::bk_remove(&mut state.waiting_response_map, sender_id);
                proof {
                    assert forall|p: Seq<u8>| #[trigger] bk_contains(
                        state.waiting_response_map@, p) implies peers_contain(state.member_ids@,
                        p) && p != state.id@ by {
                        if p == sender_id@ {
                            assert(!bk_contains(state.waiting_response_map@, p));
                        } else {
                            assert(bk_get(state.waiting_response_map@, p) == bk_get(
                                old(state).waiting_response_map@, p));
                            assert(bk_contains(old(state).waiting_response_map@, p));
                            assert(peers_contain(old(state).member_ids@, p));
                            assert(state.member_ids@ == old(state).member_ids@);
                            assert(p != old(state).id@);
                        }
                    }
                }
                if !(payload.vote == 0 || payload.vote == 1) {
                    return false;
                }
                let idx = payload.vote as usize;
                state.response_buffer[idx] = state.response_buffer[idx] + 1;
                proof {
                    assert(state.response_buffer[0] == vote_tally(*old(state), payload.vote, 0));
                    assert(state.response_buffer[1] == vote_tally(*old(state), payload.vote, 1));
                }
                if state.response_buffer[0] + state.response_buffer[1] == state.k {
                    let ghost mid = *state;
                    self.on_values_ready(state, now_millis, now_nanos, out);
                    proof {
                        assert(ovr_any(mid) == pm_any(*old(state), payload.vote));
                        assert(ovr_color(mid) == pm_color(*old(state), payload.vote));
                        assert(ovr_newconf(mid) == pm_newconf(*old(state), payload.vote));
                        assert(ovr_decides(mid) == pm_decides(*old(state), payload.vote));
                        if ovr_any(mid) {
                            assert(ovr_newarr(mid) == pm_newarr(*old(state), payload.vote));
                            assert(ovr_tip(mid) == pm_tip(*old(state), payload.vote));
                        }
                        assert(final(out)@.take(old(out)@.len() as int) == old(out)@);
                    }
                }
                true
            }
            MessageKind::Unavailable => {
                if !matches!(state.phase, SnowballPhase::Listening) {
                    return false;
                }
                if !crate::state::bk_has(&state.waiting_response_map, sender_id) {
                    return false;
                }
                proof {
                    crate::state::lemma_waiting_size_bound(old(state).waiting_response_map@,
                        old(state).member_ids@, old(state).id@, old(state).order);
                }
                crate::state::bk_remove(&mut state.waiting_response_map, sender_id);
                proof {
                    assert forall|p: Seq<u8>| #[trigger] bk_contains(
                        state.waiting_response_map@, p) implies peers_contain(state.member_ids@,
                        p) && p != state.id@ by {
                        if p == sender_id@ {
                            assert(!bk_contains(state.waiting_response_map@, p));
                        } else {
                            assert(bk_get(state.waiting_response_map@, p) == bk_get(
                                old(state).waiting_response_map@, p));
                            assert(bk_contains(old(state).waiting_response_map@, p));
                            assert(peers_contain(old(state).member_ids@, p));
                            assert(state.member_ids@ == old(state).member_ids@);
                            assert(p != old(state).id@);
                        }
                    }
                }
                let ghost pre_rs = *state;
                self.resample_one(state, now_millis, out);
                proof {
                    assert(final(out)@.take(old(out)@.len() as int) =~= old(out)@);
                    let widx = choose|widx: int|
                        {
                            &&& 0 <= widx < pre_rs.member_ids@.len()
                            &&& widx != pre_rs.order
                            &&& !bk_contains(pre_rs.waiting_response_map@, (
                            #[trigger] pre_rs.member_ids@[widx])@)
                            &&& bk_get(final(state).waiting_response_map@,
                                pre_rs.member_ids@[widx]@) == Some(Timeout {
                                state: TimeoutState::Active,
                                duration: pre_rs.hang_timeout,
                                start: now_millis,
                            })
                            &&& (forall|k2: Seq<u8>|
                                k2 != pre_rs.member_ids@[widx]@ ==> #[trigger] bk_get(
                                    final(state).waiting_response_map@,
                                    k2,
                                ) == bk_get(pre_rs.waiting_response_map@, k2))
                            &&& (forall|q: int|
                                old(out)@.len() <= q < final(out)@.len() ==> ((#[trigger] final(
                                out)@[q]) matches Action::Sleep { millis } || is_send_of(
                                    final(out)@[q],
                                    pre_rs.member_ids@[widx]@,
                                    MessageKind::Request,
                                    sent_vote(pre_rs, 0),
                                    pre_rs.seq_num,
                                    byz_spurious(pre_rs),
                                )))
                        };
                    assert forall|p: Seq<u8>| #[trigger] bk_contains(
                        final(state).waiting_response_map@, p) implies peers_contain(
                        final(state).member_ids@, p) && p != final(state).id@ by {
                        if p != pre_rs.member_ids@[widx]@ {
                            assert(bk_get(final(state).waiting_response_map@, p) == bk_get(
                                pre_rs.waiting_response_map@, p));
                            assert(bk_contains(pre_rs.waiting_response_map@, p));
                        } else {
                            if p == final(state).id@ {
                                assert(pre_rs.member_ids@[widx]@
                                    == pre_rs.member_ids@[pre_rs.order as int]@);
                            }
                        }
                    }
                }
                true
            }
            MessageKind::Undefined => true,
        }
    }
}

impl SnowballNode {
    /// Ask the validator to abandon the block being assembled.
    pub fn cancel_block(&mut self, out: &mut Vec<Action>)
        ensures
            *final(self) == *old(self),
            final(out)@ == old(out)@.push(Action::CancelBlock),
    {
        out.push(Action::CancelBlock);
    }

    /// Enqueue a newly delivered block and record its arrival time.
    pub fn on_block_new(&mut self, block: Block, state: &mut SnowballState, now_nanos: u128) -> (r:
        bool)
        requires
            old(state).wf(),
            old(self).queue_timestamped(*old(state)),
        ensures
            r == true,
            final(state).wf(),
            final(self).queue_timestamped(*final(state)),
            final(self).block_queue@.len() == old(self).block_queue@.len() + 1,
            forall|q: int| 0 <= q < old(self).block_queue@.len() ==> #[trigger] final(
                self).block_queue@[q] == old(self).block_queue@[q],
            final(self).block_queue@[old(self).block_queue@.len() as int].block_id@
                == block.block_id@,
            final(self).block_queue@[old(self).block_queue@.len() as int].block_num
                == block.block_num,
            *final(state) == (SnowballState {
                measurements: final(state).measurements,
                ..*old(state)
            }),
            final(state).measurements.n_messaggi_inviati
                == old(state).measurements.n_messaggi_inviati,
            bk_get(final(state).measurements.convergenza@, block.block_id@) == Some(now_nanos),
            forall|k2: Seq<u8>| k2 != block.block_id@ ==> #[trigger] bk_get(
                final(state).measurements.convergenza@, k2) == bk_get(
                old(state).measurements.convergenza@, k2),
    {
        let id_copy = clone_bytes(&block.block_id);
        state.set_block_new_timestamp(id_copy, now_nanos);
        self.block_queue.push(block);
        proof {
            assert forall|q: int| 0 <= q < self.block_queue@.len() implies bk_contains(
                state.measurements.convergenza@, (#[trigger] self.block_queue@[q]).block_id@) by {
                if q < old(self).block_queue@.len() {
                    assert(self.block_queue@[q] == old(self).block_queue@[q]);
                    if old(self).block_queue@[q].block_id@ != block.block_id@ {
                        assert(bk_get(state.measurements.convergenza@,
                            old(self).block_queue@[q].block_id@) == bk_get(
                            old(state).measurements.convergenza@,
                            old(self).block_queue@[q].block_id@));
                    }
                }
            }
        }
        true
    }

    /// Look at the head of the block queue: skip it while a decision is in
    /// flight, fail and drop it when it is older than the chain head, and
    /// otherwise ask for a validity check and begin deciding it.
    pub fn handle_queue(&mut self, state: &mut SnowballState, chain_head_num: u64, now: u64,
        out: &mut Vec<Action>)
        requires
            old(state).wf(),
            old(self).queue_timestamped(*old(state)),
        ensures
            final(state).wf(),
            final(self).queue_timestamped(*final(state)),
            final(state).seq_num >= old(state).seq_num,
            final(out)@.take(old(out)@.len() as int) == old(out)@,
            ({
                let q = old(self).block_queue@;
                &&& (q.len() == 0 ==> *final(self) == *old(self) && *final(state) == *old(state)
                    && final(out)@ == old(out)@)
                &&& (q.len() > 0 && q[0].block_id@ == old(state).decision_block@ ==> *final(self)
                    == *old(self) && *final(state) == *old(state) && final(out)@ == old(out)@)
                &&& (q.len() > 0 && q[0].block_id@ != old(state).decision_block@ && old(
                state).phase != SnowballPhase::Idle ==> *final(self) == *old(self) && *final(
                state) == *old(state) && final(out)@ == old(out)@)
                &&& (q.len() > 0 && q[0].block_id@ != old(state).decision_block@ && old(
                state).phase == SnowballPhase::Idle && q[0].block_num < chain_head_num ==> {
                    &&& *final(state) == *old(state)
                    &&& final(self).block_queue@ == q.skip(1)
                    &&& final(out)@.len() == old(out)@.len() + 1
                    &&& (final(out)@[old(out)@.len() as int] matches Action::FailBlock {
                        block_id,
                    } && block_id@ == q[0].block_id@)
                })
                &&& (q.len() > 0 && q[0].block_id@ != old(state).decision_block@ && old(
                state).phase == SnowballPhase::Idle && q[0].block_num >= chain_head_num
                    && q[0].block_id@.len() > 0 && old(state).seq_num < u64::MAX ==> {
                    &&& final(state).seq_num == old(state).seq_num + 1
                    &&& final(state).phase == SnowballPhase::Listening
                    &&& final(state).decision_block@ == q[0].block_id@
                    &&& dm_get(final(state).decision_map@, final(state).seq_num) == Some(
                        SnowballDecisionState::OK)
                    &&& final(self).block_queue@ == q
                    &&& final(out)@.len() > old(out)@.len()
                    &&& (final(out)@[old(out)@.len() as int] matches Action::CheckBlocks {
                        block_id,
                    } && block_id@ == q[0].block_id@)
                })
            }),
    {
        if self.block_queue.len() == 0 {
            return;
        }
        let head = crate::ids::clone_block(&self.block_queue[0]);
        if bytes_eq(&head.block_id, &state.decision_block) {
            return;
        }
        if !matches!(state.phase, SnowballPhase::Idle) {
            return;
        }
        if head.block_num < chain_head_num {
            out.push(Action::FailBlock { block_id: head.block_id });
            let _ = self.block_queue.remove(0);
            proof {
                assert(self.block_queue@ =~= old(self).block_queue@.skip(1));
                assert(final(out)@.take(old(out)@.len() as int) =~= old(out)@);
            }
            return;
        }
        if head.block_id.len() == 0 || state.seq_num == u64::MAX {
            // a block the protocol cannot begin deciding is left queued
            return;
        }
        out.push(Action::CheckBlocks { block_id: clone_bytes(&head.block_id) });
        let ghost mid_out = out@;
        proof {
            assert(bk_contains(state.measurements.convergenza@, head.block_id@));
        }
        self.handle_block_new(head.block_id, state, now, out);
        proof {
            assert(out@.take(mid_out.len() as int) == mid_out);
            assert forall|q: int| 0 <= q < old(out)@.len() implies out@[q] == old(out)@[q] by {
                assert(out@[q] == out@.take(mid_out.len() as int)[q]);
                assert(mid_out[q] == old(out)@[q]);
            }
            assert(final(out)@.take(old(out)@.len() as int) =~= old(out)@);
            assert(out@[old(out)@.len() as int] == out@.take(mid_out.len() as int)[old(
            out)@.len() as int]);
            assert(out@[old(out)@.len() as int] == mid_out[old(out)@.len() as int]);
        }
    }

    /// A validity report arrived; the decision protocol itself is not
    /// affected by it.
    pub fn on_block_valid(&mut self, block_id: BlockId, state: &mut SnowballState) -> (r: bool)
        ensures
            r == true,
            *final(self) == *old(self),
            *final(state) == *old(state),
    {
        true
    }

    /// An invalidity report arrived; nothing to undo here.
    pub fn on_block_invalid(&mut self, block_id: BlockId) -> (r: bool)
        ensures
            r == true,
            *final(self) == *old(self),
    {
        true
    }

    /// A commit notification arrived. The block was already popped when the
    /// decision was made, so a repeated notification changes nothing: no
    /// second commit is attempted.
    pub fn on_block_commit(&mut self, block_id: BlockId, state: &mut SnowballState) -> (r: bool)
        ensures
            r == true,
            *final(self) == *old(self),
            *final(state) == *old(state),
    {
        true
    }

    /// A peer connected: add it to the member list if it is new, and
    /// recompute this node's own order.
    pub fn on_peer_connected(&mut self, peer_id: PeerId, state: &mut SnowballState) -> (r: bool)
        requires
            old(state).wf(),
        ensures
            r == true,
            *final(self) == *old(self),
            final(state).wf(),
            (peers_contain(old(state).member_ids@, peer_id@) ==> *final(state) == *old(state)),
            (!peers_contain(old(state).member_ids@, peer_id@) ==> {
                &&& final(state).member_ids@.len() == old(state).member_ids@.len() + 1
                &&& (forall|q: int| 0 <= q < old(state).member_ids@.len() ==> #[trigger] final(
                    state).member_ids@[q] == old(state).member_ids@[q])
                &&& final(state).member_ids@[old(state).member_ids@.len() as int]@ == peer_id@
                &&& final(state).order == old(state).order
                &&& *final(state) == (SnowballState {
                    member_ids: final(state).member_ids,
                    ..*old(state)
                })
            }),
    {
        let ghost old_members = state.member_ids@;
        match crate::state::find_peer_index(&state.member_ids, &peer_id) {
            Some(_) => true,
            None => {
                state.member_ids.push(peer_id);
                proof {
                    assert(peers_unique(state.member_ids@)) by {
                        assert forall|a: int, b: int| 0 <= a < b < state.member_ids@.len() implies
                            state.member_ids@[a]@ != state.member_ids@[b]@ by {
                            if b < old_members.len() {
                                assert(state.member_ids@[a] == old_members[a]
                                    && state.member_ids@[b] == old_members[b]);
                            } else {
                                assert(state.member_ids@[a] == old_members[a]);
                                assert(!peers_contain(old_members,
                                    state.member_ids@[b]@) ==> old_members[a]@
                                    != state.member_ids@[b]@);
                            }
                        }
                    }
                    assert(state.member_ids@[state.order as int] == old_members[state.order as int]);
                    assert forall|p: Seq<u8>| bk_contains(state.waiting_response_map@, p) implies
                        #[trigger] peers_contain(state.member_ids@, p) by {
                        assert(bk_contains(old(state).waiting_response_map@, p));
                        assert(peers_contain(old_members, p));
                        let j = choose|j: int| 0 <= j < old_members.len() && old_members[j]@ == p;
                        assert(state.member_ids@[j]@ == p);
                    }
                }
                true
            }
        }
    }

    /// A peer disconnected: remove it from the member list and from the
    /// waiting-response map, and recompute this node's own order.
    pub fn on_peer_disconnected(&mut self, peer_id: PeerId, state: &mut SnowballState) -> (r:
        bool)
        requires
            old(state).wf(),
            peers_contain(old(state).member_ids@, peer_id@),
            peer_id@ != old(state).id@,
            old(state).member_ids@.len() > old(state).k + 1,
        ensures
            r == true,
            *final(self) == *old(self),
            final(state).wf(),
            final(state).member_ids@.len() == old(state).member_ids@.len() - 1,
            // the members keep their relative order around the removed index
            forall|q: int| 0 <= q < peer_index(old(state).member_ids@, peer_id@) ==> #[trigger]
                final(state).member_ids@[q] == old(state).member_ids@[q],
            forall|q: int|
                peer_index(old(state).member_ids@, peer_id@) <= q
                    < final(state).member_ids@.len() ==> #[trigger] final(state).member_ids@[q]
                    == old(state).member_ids@[q + 1],
            !peers_contain(final(state).member_ids@, peer_id@),
            forall|p: Seq<u8>| p != peer_id@ ==> (#[trigger] peers_contain(
                final(state).member_ids@, p) <==> peers_contain(old(state).member_ids@, p)),
            final(state).member_ids@[final(state).order as int]@ == old(state).id@,
            !bk_contains(final(state).waiting_response_map@, peer_id@),
            forall|k2: Seq<u8>| k2 != peer_id@ ==> #[trigger] bk_get(
                final(state).waiting_response_map@, k2) == bk_get(
                old(state).waiting_response_map@, k2),
            *final(state) == (SnowballState {
                member_ids: final(state).member_ids,
                order: final(state).order,
                waiting_response_map: final(state).waiting_response_map,
                ..*old(state)
            }),
    {
        let ghost old_members = state.member_ids@;
        let index = match crate::state::find_peer_index(&state.member_ids, &peer_id) {
            Some(i) => i,
            None => {
                proof {
                    assert(false);
                }
                0
            }
        };
        let _ = state.member_ids.remove(index);
        proof {
            assert forall|q: int| 0 <= q < state.member_ids@.len() implies #[trigger]
                state.member_ids@[q] == (if q < index {
                old_members[q]
            } else {
                old_members[q + 1]
            }) by {
                assert(state.member_ids@ =~= old_members.subrange(0, index as int)
                    + old_members.subrange(index as int + 1, old_members.len() as int));
            }
            assert(peers_unique(state.member_ids@)) by {
                assert forall|a: int, b: int| 0 <= a < b < state.member_ids@.len() implies
                    state.member_ids@[a]@ != state.member_ids@[b]@ by {
                }
            }
            assert(peers_contain(state.member_ids@, old(state).id@)) by {
                let j = choose|j: int| 0 <= j < old_members.len() && old_members[j]@ == old(
                    state).id@;
                assert(j != index);
                if j < index {
                    assert(state.member_ids@[j]@ == old(state).id@);
                } else {
                    assert(state.member_ids@[j - 1]@ == old(state).id@);
                }
            }
            assert(!peers_contain(state.member_ids@, peer_id@)) by {
                if peers_contain(state.member_ids@, peer_id@) {
                    let j = choose|j: int| 0 <= j < state.member_ids@.len()
                        && state.member_ids@[j]@ == peer_id@;
                    if j < index {
                        assert(old_members[j]@ == peer_id@);
                    } else {
                        assert(old_members[j + 1]@ == peer_id@);
                    }
                }
            }
        }
        crate::state::bk_remove(&mut state.waiting_response_map, &peer_id);
        let idc = clone_bytes(&state.id);
        let n_now = state.member_ids.len();
        proof {
            assert(state.member_ids@.len() == n_now);
        }
        let new_order = state.get_order_index(idc);
        state.order = new_order;
        proof {
            assert(state.member_ids@[state.order as int]@ == old(state).id@);
            assert forall|p: Seq<u8>| bk_contains(state.waiting_response_map@, p) implies
                #[trigger] peers_contain(state.member_ids@, p) && p != state.id@ by {
                if p == peer_id@ {
                    assert(!bk_contains(state.waiting_response_map@, p));
                } else {
                    assert(bk_get(state.waiting_response_map@, p) == bk_get(
                        old(state).waiting_response_map@, p));
                    assert(bk_contains(old(state).waiting_response_map@, p));
                    assert(peers_contain(old_members, p));
                    let j = choose|j: int| 0 <= j < old_members.len() && old_members[j]@ == p;
                    assert(j != index);
                    if j < index {
                        assert(state.member_ids@[j]@ == p);
                    } else {
                        assert(state.member_ids@[j - 1]@ == p);
                    }
                }
            }
            assert forall|p: Seq<u8>| p != peer_id@ implies (#[trigger] peers_contain(
                state.member_ids@, p) <==> peers_contain(old_members, p)) by {
                if peers_contain(old_members, p) {
                    let j = choose|j: int| 0 <= j < old_members.len() && old_members[j]@ == p;
                    assert(j != index);
                    if j < index {
                        assert(state.member_ids@[j]@ == p);
                    } else {
                        assert(state.member_ids@[j - 1]@ == p);
                    }
                }
                if peers_contain(state.member_ids@, p) {
                    let j = choose|j: int| 0 <= j < state.member_ids@.len()
                        && state.member_ids@[j]@ == p;
                }
            }
        }
        true
    }
}

/// How many entries of a waiting map have expired at time `now`.
pub open spec fn expired_count_of(m: Seq<(Vec<u8>, Timeout)>, now: u64) -> int
    decreases m.len(),
{
    if m.len() == 0 {
        0
    } else {
        (if crate::timing::spec_check(m[0].1, now).state == TimeoutState::Expired {
            1int
        } else {
            0
        }) + expired_count_of(m.skip(1), now)
    }
}

impl SnowballNode {
    /// Replace `expired_count` dropped entries: sample that many fresh
    /// peers, one at a time, waiting on each and polling it. `old_map` is
    /// the waiting map as it stood before the expired entries were dropped.
    #[verifier::rlimit(100)]
    fn repoll_expired(&mut self, state: &mut SnowballState, expired_count: usize, now: u64,
        out: &mut Vec<Action>, Ghost(old_map): Ghost<Seq<(Vec<u8>, Timeout)>>)
        requires
            !byz_hung(*old(state)),
            bk_unique(old_map),
            old(state).waiting_response_map@.len() + expired_count == old_map.len(),
            old_map.len() + 1 <= old(state).member_ids@.len(),
            peers_unique(old(state).member_ids@),
            old(state).order < old(state).member_ids@.len(),
            old(state).member_ids@[old(state).order as int]@ == old(state).id@,
            bk_unique(old(state).waiting_response_map@),
            forall|p: Seq<u8>| #[trigger] bk_contains(old(state).waiting_response_map@, p)
                ==> peers_contain(old(state).member_ids@, p) && p != old(state).id@,
            forall|q: int|
                0 <= q < old_map.len() ==> (crate::timing::spec_check(
                    (#[trigger] old_map[q]).1,
                    now,
                ).state != TimeoutState::Expired ==> bk_get(old(state).waiting_response_map@,
                    old_map[q].0@) == Some(old_map[q].1)),
            forall|p: Seq<u8>|
                #[trigger] bk_contains(old(state).waiting_response_map@, p) ==> (bk_get(
                    old(state).waiting_response_map@,
                    p,
                )->0 == (Timeout {
                    state: TimeoutState::Active,
                    duration: old(state).hang_timeout,
                    start: now,
                }) || (bk_get(old_map, p) == bk_get(old(state).waiting_response_map@, p)
                    && crate::timing::spec_check(
                    bk_get(old(state).waiting_response_map@, p)->0,
                    now,
                ).state != TimeoutState::Expired)),
        ensures
            *final(self) == *old(self),
            *final(state) == (SnowballState {
                waiting_response_map: final(state).waiting_response_map,
                measurements: final(state).measurements,
                ..*old(state)
            }),
            final(state).measurements.convergenza == old(state).measurements.convergenza,
            final(state).measurements.n_messaggi_inviati == sat_add(
                old(state).measurements.n_messaggi_inviati,
                expired_count * msgs_per_turn(*old(state)),
            ),
            final(state).waiting_response_map@.len() == old(state).waiting_response_map@.len()
                + expired_count,
            bk_unique(final(state).waiting_response_map@),
            forall|p: Seq<u8>| #[trigger] bk_contains(final(state).waiting_response_map@, p)
                ==> peers_contain(old(state).member_ids@, p) && p != old(state).id@,
            forall|q: int|
                0 <= q < old_map.len() ==> (crate::timing::spec_check(
                    (#[trigger] old_map[q]).1,
                    now,
                ).state != TimeoutState::Expired ==> bk_get(final(state).waiting_response_map@,
                    old_map[q].0@) == Some(old_map[q].1)),
            forall|p: Seq<u8>|
                #[trigger] bk_contains(final(state).waiting_response_map@, p) ==> (bk_get(
                    final(state).waiting_response_map@,
                    p,
                )->0 == (Timeout {
                    state: TimeoutState::Active,
                    duration: old(state).hang_timeout,
                    start: now,
                }) || (bk_get(old_map, p) == bk_get(final(state).waiting_response_map@, p)
                    && crate::timing::spec_check(
                    bk_get(final(state).waiting_response_map@, p)->0,
                    now,
                ).state != TimeoutState::Expired)),
            final(out)@.len() == old(out)@.len() + expired_count * actions_per_turn(
                *old(state)),
            final(out)@.take(old(out)@.len() as int) == old(out)@,
            forall|q: int|
                old(out)@.len() <= q < final(out)@.len() ==> ((#[trigger] final(out)@[q])
                    matches Action::Sleep { millis } || exists|w: Seq<u8>|
                    peers_contain(old(state).member_ids@, w) && w != old(state).id@
                    && is_send_of(
                    final(out)@[q],
                    w,
                    MessageKind::Request,
                    sent_vote(*old(state), 0),
                    old(state).seq_num,
                    byz_spurious(*old(state)),
                )),
    {
        let mut it: usize = 0;
        while it < expired_count
            invariant
                !byz_hung(*old(state)),
                it <= expired_count,
                *self == *old(self),
                *state == (SnowballState {
                    waiting_response_map: state.waiting_response_map,
                    measurements: state.measurements,
                    ..*old(state)
                }),
                state.measurements.convergenza == old(state).measurements.convergenza,
                bk_unique(state.waiting_response_map@),
                state.waiting_response_map@.len() == old(state).waiting_response_map@.len() + it,
                old(state).waiting_response_map@.len() + expired_count == old_map.len(),
                old_map.len() + 1 <= old(state).member_ids@.len(),
                peers_unique(state.member_ids@),
                state.order < state.member_ids@.len(),
                state.member_ids@[state.order as int]@ == state.id@,
                forall|p: Seq<u8>| #[trigger] bk_contains(state.waiting_response_map@, p)
                    ==> peers_contain(state.member_ids@, p) && p != state.id@,
                forall|q: int|
                    0 <= q < old_map.len() ==> (crate::timing::spec_check(
                        (#[trigger] old_map[q]).1,
                        now,
                    ).state != TimeoutState::Expired ==> bk_get(state.waiting_response_map@,
                        old_map[q].0@) == Some(old_map[q].1)),
                out@.len() == old(out)@.len() + it * actions_per_turn(*old(state)),
                out@.take(old(out)@.len() as int) == old(out)@,
                state.measurements.n_messaggi_inviati == sat_add(
                    old(state).measurements.n_messaggi_inviati,
                    it * msgs_per_turn(*old(state)),
                ),
                forall|p: Seq<u8>|
                    #[trigger] bk_contains(state.waiting_response_map@, p) ==> (bk_get(
                        state.waiting_response_map@,
                        p,
                    )->0 == (Timeout {
                        state: TimeoutState::Active,
                        duration: old(state).hang_timeout,
                        start: now,
                    }) || (bk_get(old_map, p) == bk_get(state.waiting_response_map@, p)
                        && crate::timing::spec_check(
                        bk_get(state.waiting_response_map@, p)->0,
                        now,
                    ).state != TimeoutState::Expired)),
                forall|q: int|
                    old(out)@.len() <= q < out@.len() ==> ((#[trigger] out@[q]) matches
                        Action::Sleep { millis } || exists|w: Seq<u8>|
                        peers_contain(old(state).member_ids@, w) && w != old(state).id@
                        && is_send_of(
                        out@[q],
                        w,
                        MessageKind::Request,
                        sent_vote(*old(state), 0),
                        old(state).seq_num,
                        byz_spurious(*old(state)),
                    )),
            decreases expired_count - it,
        {
            let ghost pre_rs = *state;
            let ghost pre_out = out@;
            self.resample_one(state, now, out);
            proof {
                assert(out@.take(pre_out.len() as int) == pre_out);
                assert forall|q: int| 0 <= q < old(out)@.len() implies out@[q] == old(out)@[q]
                    by {
                    assert(out@[q] == out@.take(pre_out.len() as int)[q]);
                    assert(pre_out.take(old(out)@.len() as int)[q] == old(out)@[q]);
                    assert(pre_out[q] == pre_out.take(old(out)@.len() as int)[q]);
                }
                assert(out@.take(old(out)@.len() as int) =~= old(out)@);
                let widx = choose|widx: int|
                    {
                        &&& 0 <= widx < pre_rs.member_ids@.len()
                        &&& widx != pre_rs.order
                        &&& !bk_contains(pre_rs.waiting_response_map@, (
                        #[trigger] pre_rs.member_ids@[widx])@)
                        &&& bk_get(state.waiting_response_map@, pre_rs.member_ids@[widx]@)
                            == Some(Timeout {
                            state: TimeoutState::Active,
                            duration: pre_rs.hang_timeout,
                            start: now,
                        })
                        &&& (forall|k2: Seq<u8>|
                            k2 != pre_rs.member_ids@[widx]@ ==> #[trigger] bk_get(
                                state.waiting_response_map@,
                                k2,
                            ) == bk_get(pre_rs.waiting_response_map@, k2))
                        &&& (forall|q: int|
                            pre_out.len() <= q < out@.len() ==> ((#[trigger] out@[q]) matches
                                Action::Sleep { millis } || is_send_of(
                                out@[q],
                                pre_rs.member_ids@[widx]@,
                                MessageKind::Request,
                                sent_vote(pre_rs, 0),
                                pre_rs.seq_num,
                                byz_spurious(pre_rs),
                            )))
                    };
                assert(byz_spurious(pre_rs) == byz_spurious(*old(state)));
                assert(sent_vote(pre_rs, 0) == sent_vote(*old(state), 0));
                assert(msgs_per_turn(pre_rs) == msgs_per_turn(*old(state)));
                assert(actions_per_turn(pre_rs) == actions_per_turn(*old(state)));
                lemma_sat_add_assoc(old(state).measurements.n_messaggi_inviati, it
                    * msgs_per_turn(*old(state)), msgs_per_turn(*old(state)));
                let m_turn = msgs_per_turn(*old(state));
                let a_turn = actions_per_turn(*old(state));
                assert((it + 1) * m_turn == it * m_turn + m_turn) by (nonlinear_arith);
                assert((it + 1) * a_turn == it * a_turn + a_turn) by (nonlinear_arith);
                // each waited-on peer either already carried a fresh or
                // unexpired timeout, or is the replacement just added
                assert forall|p: Seq<u8>| #[trigger] bk_contains(state.waiting_response_map@, p)
                    implies (bk_get(state.waiting_response_map@, p)->0 == (Timeout {
                    state: TimeoutState::Active,
                    duration: old(state).hang_timeout,
                    start: now,
                }) || (bk_get(old_map, p) == bk_get(state.waiting_response_map@, p)
                    && crate::timing::spec_check(
                    bk_get(state.waiting_response_map@, p)->0,
                    now,
                ).state != TimeoutState::Expired)) by {
                    if p == pre_rs.member_ids@[widx]@ {
                        assert(pre_rs.hang_timeout == old(state).hang_timeout);
                    } else {
                        assert(bk_get(state.waiting_response_map@, p) == bk_get(
                            pre_rs.waiting_response_map@, p));
                        assert(bk_contains(pre_rs.waiting_response_map@, p));
                    }
                }
                assert forall|p: Seq<u8>| #[trigger] bk_contains(state.waiting_response_map@, p)
                    implies peers_contain(state.member_ids@, p) && p != state.id@ by {
                    if p != pre_rs.member_ids@[widx]@ {
                        assert(bk_get(state.waiting_response_map@, p) == bk_get(
                            pre_rs.waiting_response_map@, p));
                        assert(bk_contains(pre_rs.waiting_response_map@, p));
                        assert(peers_contain(pre_rs.member_ids@, p) && p != pre_rs.id@);
                        assert(state.member_ids@ == pre_rs.member_ids@);
                    } else {
                        assert(peers_contain(state.member_ids@, p));
                        if p == state.id@ {
                            assert(pre_rs.member_ids@[pre_rs.order as int]@ == pre_rs.id@);
                            assert(pre_rs.member_ids@[widx]@
                                == pre_rs.member_ids@[pre_rs.order as int]@);
                            assert(widx == pre_rs.order);
                        }
                    }
                }
                assert forall|q: int| 0 <= q < old_map.len() && crate::timing::spec_check(
                    (#[trigger] old_map[q]).1, now).state != TimeoutState::Expired implies
                    bk_get(state.waiting_response_map@, old_map[q].0@) == Some(old_map[q].1) by {
                    assert(bk_get(pre_rs.waiting_response_map@, old_map[q].0@) == Some(
                        old_map[q].1));
                    assert(bk_contains(pre_rs.waiting_response_map@, old_map[q].0@));
                }
                assert forall|q: int| old(out)@.len() <= q < out@.len() implies ((
                #[trigger] out@[q]) matches Action::Sleep { millis } || exists|w: Seq<u8>|
                    peers_contain(old(state).member_ids@, w) && w != old(state).id@
                    && is_send_of(
                    out@[q],
                    w,
                    MessageKind::Request,
                    sent_vote(*old(state), 0),
                    old(state).seq_num,
                    byz_spurious(*old(state)),
                )) by {
                    if q < pre_out.len() {
                        assert(out@[q] == out@.take(pre_out.len() as int)[q]);
                        assert(out@.take(pre_out.len() as int) == pre_out);
                        assert(out@[q] == pre_out[q]);
                    } else {
                        if !(out@[q] matches Action::Sleep { millis }) {
                            let wid = pre_rs.member_ids@[widx]@;
                            assert(is_send_of(out@[q], wid, MessageKind::Request, sent_vote(
                                *old(state), 0), old(state).seq_num, byz_spurious(
                                *old(state))));
                            assert(peers_contain(old(state).member_ids@, wid));
                            assert(wid != old(state).id@) by {
                                if wid == old(state).id@ {
                                    assert(pre_rs.member_ids@[widx]@
                                        == pre_rs.member_ids@[pre_rs.order as int]@);
                                }
                            }
                        }
                    }
                }
            }
            it += 1;
        }
        proof {
            assert(final(out)@.take(old(out)@.len() as int) == old(out)@);
        }
    }

    /// Sweep the waiting-response map: every peer whose request timeout has
    /// expired is dropped and replaced by a freshly sampled peer, which is
    /// polled. A node configured as hung does nothing here.
    #[verifier::rlimit(100)]
    pub fn handle_unresponsive_peers(&mut self, state: &mut SnowballState, now: u64,
        out: &mut Vec<Action>)
        requires
            old(state).wf(),
        ensures
            final(state).wf(),
            *final(self) == *old(self),
            *final(state) == (SnowballState {
                waiting_response_map: final(state).waiting_response_map,
                measurements: final(state).measurements,
                ..*old(state)
            }),
            final(state).measurements.convergenza == old(state).measurements.convergenza,
            final(out)@.take(old(out)@.len() as int) == old(out)@,
            (byz_hung(*old(state)) ==> *final(state) == *old(state) && final(out)@ == old(out)@),
            (!byz_hung(*old(state)) ==> {
                &&& final(state).waiting_response_map@.len() == old(
                state).waiting_response_map@.len()
                &&& (forall|q: int|
                    0 <= q < old(state).waiting_response_map@.len() ==> (
                    crate::timing::spec_check(
                        (#[trigger] old(state).waiting_response_map@[q]).1,
                        now,
                    ).state != TimeoutState::Expired ==> bk_get(
                        final(state).waiting_response_map@,
                        old(state).waiting_response_map@[q].0@,
                    ) == Some(old(state).waiting_response_map@[q].1)))
                // every waited-on peer either kept its unexpired timeout or
                // is a fresh replacement with a started one
                &&& (forall|p: Seq<u8>|
                    #[trigger] bk_contains(final(state).waiting_response_map@, p) ==> (bk_get(
                        final(state).waiting_response_map@,
                        p,
                    )->0 == (Timeout {
                        state: TimeoutState::Active,
                        duration: old(state).hang_timeout,
                        start: now,
                    }) || (bk_get(old(state).waiting_response_map@, p) == bk_get(
                        final(state).waiting_response_map@,
                        p,
                    ) && crate::timing::spec_check(
                        bk_get(final(state).waiting_response_map@, p)->0,
                        now,
                    ).state != TimeoutState::Expired)))
                // an expired entry never survives with its old timeout
                &&& (forall|p: int|
                    0 <= p < old(state).waiting_response_map@.len()
                        && crate::timing::spec_check(
                        (#[trigger] old(state).waiting_response_map@[p]).1,
                        now,
                    ).state == TimeoutState::Expired ==> bk_get(
                        final(state).waiting_response_map@,
                        old(state).waiting_response_map@[p].0@,
                    ) != Some(old(state).waiting_response_map@[p].1))
                // one polling turn per expired entry
                &&& final(out)@.len() == old(out)@.len() + expired_count_of(
                    old(state).waiting_response_map@,
                    now,
                ) * actions_per_turn(*old(state))
                &&& final(state).measurements.n_messaggi_inviati == sat_add(
                    old(state).measurements.n_messaggi_inviati,
                    expired_count_of(old(state).waiting_response_map@, now) * msgs_per_turn(
                        *old(state),
                    ),
                )
                &&& (forall|q: int|
                    old(out)@.len() <= q < final(out)@.len() ==> ((#[trigger] final(out)@[q])
                        matches Action::Sleep { millis } || exists|w: Seq<u8>|
                        peers_contain(old(state).member_ids@, w) && w != old(state).id@
                        && is_send_of(
                        final(out)@[q],
                        w,
                        MessageKind::Request,
                        sent_vote(*old(state), 0),
                        old(state).seq_num,
                        byz_spurious(*old(state)),
                    )))
            }),
    {
        if state.byzantine_test.enabled && crate::state::contains_idx(
            &state.byzantine_test.hang_idx, state.order) {
            return;
        }
        let ghost old_map = state.waiting_response_map@;
        let total = state.waiting_response_map.len();
        proof {
            crate::state::lemma_waiting_size_bound(old_map, state.member_ids@, state.id@,
                state.order);
            assert(old_map.take(old_map.len() as int) =~= old_map);
        }
        let mut kept: Vec<(PeerId, Timeout)> = Vec::new();
        let mut expired_count: usize = 0;
        let ghost src0: Seq<int> = Seq::empty();
        let mut kept_src = Ghost(src0);
        proof {
            assert(old_map.skip(old_map.len() as int) =~= Seq::<(Vec<u8>, Timeout)>::empty());
        }
        while state.waiting_response_map.len() > 0
            invariant
                total == old_map.len(),
                expired_count <= total,
                *state == (SnowballState {
                    waiting_response_map: state.waiting_response_map,
                    ..*old(state)
                }),
                bk_unique(old_map),
                state.waiting_response_map@ == old_map.take(
                    state.waiting_response_map@.len() as int),
                kept@.len() + expired_count == old_map.len()
                    - state.waiting_response_map@.len(),
                expired_count == expired_count_of(old_map.skip(
                    state.waiting_response_map@.len() as int), now),
                kept@.len() == kept_src@.len(),
                forall|a: int| 0 <= a < kept_src@.len()
                    ==> state.waiting_response_map@.len() <= #[trigger] kept_src@[a]
                    < old_map.len(),
                forall|a: int| 0 <= a < kept_src@.len() ==> kept@[a] == old_map[#[trigger]
                kept_src@[a]],
                forall|a: int, b: int| 0 <= a < b < kept_src@.len() ==> kept_src@[a]
                    > kept_src@[b],
                forall|q: int| 0 <= q < kept@.len() ==> crate::timing::spec_check(
                    (#[trigger] kept@[q]).1, now).state != TimeoutState::Expired,
                forall|p: int|
                    state.waiting_response_map@.len() <= p < old_map.len()
                        && crate::timing::spec_check((#[trigger] old_map[p]).1, now).state
                        != TimeoutState::Expired ==> exists|q: int|
                        0 <= q < kept@.len() && kept@[q] == old_map[p],
            decreases state.waiting_response_map@.len(),
        {
            let ghost m = state.waiting_response_map@.len() as int;
            let ghost kept_pre = kept@;
            let pair = match state.waiting_response_map.pop() {
                Some(p) => p,
                None => {
                    proof {
                        assert(false);
                    }
                    (Vec::new(), Timeout::new(0, 0))
                }
            };
            proof {
                assert(pair == old_map.take(m)[m - 1]);
                assert(old_map.take(m)[m - 1] == old_map[m - 1]);
                assert(state.waiting_response_map@ =~= old_map.take(m - 1));
                // one more processed entry: the expired count of the suffix
                // grows by this entry's own expiry
                assert(old_map.skip(m - 1)[0] == old_map[m - 1]);
                assert(old_map.skip(m - 1).skip(1) =~= old_map.skip(m));
                assert(expired_count_of(old_map.skip(m - 1), now) == (
                if crate::timing::spec_check(old_map[m - 1].1, now).state
                    == TimeoutState::Expired {
                    1int
                } else {
                    0
                }) + expired_count_of(old_map.skip(m), now));
            }
            let (peer, mut t) = pair;
            let ghost t0 = t;
            let expired_now = t.check_expired(now);
            if expired_now {
                expired_count = expired_count + 1;
                proof {
                    assert(crate::timing::spec_check(t0, now).state == TimeoutState::Expired);
                    assert forall|p: int|
                        m - 1 <= p < old_map.len() && crate::timing::spec_check(
                            (#[trigger] old_map[p]).1,
                            now,
                        ).state != TimeoutState::Expired implies exists|q: int|
                        0 <= q < kept@.len() && kept@[q] == old_map[p] by {
                        assert(p != m - 1);
                    }
                }
            } else {
                proof {
                    assert(crate::timing::spec_check(t0, now) == t0);
                }
                kept.push((peer, t));
                proof {
                    kept_src@ = kept_src@.push(m - 1);
                    assert(kept@[kept@.len() - 1] == old_map[m - 1]);
                    assert(forall|q: int| 0 <= q < kept_pre.len() ==> #[trigger] kept@[q]
                        == kept_pre[q]);
                    assert forall|p: int|
                        m - 1 <= p < old_map.len() && crate::timing::spec_check(
                            (#[trigger] old_map[p]).1,
                            now,
                        ).state != TimeoutState::Expired implies exists|q: int|
                        0 <= q < kept@.len() && kept@[q] == old_map[p] by {
                        if p == m - 1 {
                            assert(kept@[kept@.len() - 1] == old_map[p]);
                        } else {
                            let q = choose|q: int| 0 <= q < kept_pre.len() && kept_pre[q]
                                == old_map[p];
                            assert(kept@[q] == old_map[p]);
                        }
                    }
                }
            }
        }
        proof {
            assert(state.waiting_response_map@.len() == 0);
        }
        state.waiting_response_map = kept;
        let ghost base_map = state.waiting_response_map@;
        proof {
            // distinct source entries of a unique-keyed map have distinct keys
            assert(bk_unique(base_map)) by {
                assert forall|a: int, b: int| 0 <= a < b < base_map.len() implies base_map[a].0@
                    != base_map[b].0@ by {
                    assert(base_map[a] == old_map[kept_src@[a]]);
                    assert(base_map[b] == old_map[kept_src@[b]]);
                    assert(kept_src@[a] > kept_src@[b]);
                }
            }
            // every kept entry is an entry of the old map, so its key is a
            // member other than this node
            assert forall|p: Seq<u8>| #[trigger] bk_contains(state.waiting_response_map@, p)
                implies peers_contain(state.member_ids@, p) && p != state.id@ by {
                crate::state::lemma_bk_contains_index(state.waiting_response_map@, p);
                let q = choose|q: int| 0 <= q < state.waiting_response_map@.len() && (#[trigger]
                state.waiting_response_map@[q]).0@ == p;
                assert(base_map[q] == old_map[kept_src@[q]]);
                crate::state::lemma_bk_get_some(old_map, p, kept_src@[q]);
                assert(bk_contains(old(state).waiting_response_map@, p));
            }
            // a peer whose timeout had not expired is still waited on, with
            // its timeout untouched
            assert forall|q: int|
                0 <= q < old_map.len() && crate::timing::spec_check(
                    (#[trigger] old_map[q]).1,
                    now,
                ).state != TimeoutState::Expired implies bk_get(state.waiting_response_map@,
                old_map[q].0@) == Some(old_map[q].1) by {
                let w = choose|w: int| 0 <= w < base_map.len() && base_map[w] == old_map[q];
                crate::state::lemma_bk_get_some(base_map, old_map[q].0@, w);
            }
            assert(old_map.skip(0) =~= old_map);
            assert(expired_count == expired_count_of(old_map, now));
            // kept entries enter the characterization as unexpired old entries
            assert forall|p: Seq<u8>| #[trigger] bk_contains(base_map, p) implies (bk_get(
                base_map,
                p,
            )->0 == (Timeout {
                state: TimeoutState::Active,
                duration: old(state).hang_timeout,
                start: now,
            }) || (bk_get(old_map, p) == bk_get(base_map, p) && crate::timing::spec_check(
                bk_get(base_map, p)->0,
                now,
            ).state != TimeoutState::Expired)) by {
                crate::state::lemma_bk_contains_index(base_map, p);
                let q = choose|q: int| 0 <= q < base_map.len() && (#[trigger] base_map[q]).0@
                    == p;
                crate::state::lemma_bk_get_some(base_map, p, q);
                assert(base_map[q] == old_map[kept_src@[q]]);
                crate::state::lemma_bk_get_some(old_map, p, kept_src@[q]);
                assert(crate::timing::spec_check(base_map[q].1, now).state
                    != TimeoutState::Expired);
            }
        }
        let ghost call_state = *state;
        self.repoll_expired(state, expired_count, now, out, Ghost(old_map));
        proof {
            assert(msgs_per_turn(call_state) == msgs_per_turn(*old(state)));
            assert(actions_per_turn(call_state) == actions_per_turn(*old(state)));
            assert(sent_vote(call_state, 0) == sent_vote(*old(state), 0));
            assert(byz_spurious(call_state) == byz_spurious(*old(state)));
            assert(final(out)@.take(old(out)@.len() as int) == old(out)@);
            // an expired entry cannot survive with its old timeout: whatever
            // now stands under its key is fresh or was never expired
            assert forall|p: int|
                0 <= p < old_map.len() && crate::timing::spec_check(
                    (#[trigger] old_map[p]).1,
                    now,
                ).state == TimeoutState::Expired implies bk_get(state.waiting_response_map@,
                old_map[p].0@) != Some(old_map[p].1) by {
                if bk_get(state.waiting_response_map@, old_map[p].0@) == Some(old_map[p].1) {
                    assert(bk_contains(state.waiting_response_map@, old_map[p].0@));
                    if bk_get(state.waiting_response_map@, old_map[p].0@)->0 == (Timeout {
                        state: TimeoutState::Active,
                        duration: old(state).hang_timeout,
                        start: now,
                    }) {
                        // a timeout started right now has not expired
                        assert(crate::timing::spec_check(old_map[p].1, now) == old_map[p].1);
                        assert(false);
                    } else {
                        crate::state::lemma_bk_get_some(old_map, old_map[p].0@, p);
                        assert(false);
                    }
                }
            }
        }
    }
}

/// With a sample size of all-but-one (`k == n − 1`), every member index
/// other than this node's own is in the sample.
pub proof fn lemma_full_sample(sample: Seq<usize>, n: int, order: u64)
    requires
        n >= 1,
        order < n,
        sample.len() == n - 1,
        forall|q: int| 0 <= q < sample.len() ==> (#[trigger] sample[q]) < n,
        forall|q: int| 0 <= q < sample.len() ==> (#[trigger] sample[q]) as u64 != order,
        forall|a: int, b: int| 0 <= a < b < sample.len() ==> sample[a] != sample[b],
    ensures
        forall|x: usize| (x as int) < n && x as u64 != order ==> #[trigger] sample.contains(x),
{
    let f = |u: usize| u as int;
    let idxs = sample.map_values(f);
    assert(idxs.no_duplicates()) by {
        assert forall|a: int, b: int| 0 <= a < idxs.len() && 0 <= b < idxs.len() && a != b implies
            idxs[a] != idxs[b] by {
            assert(idxs[a] == f(sample[a]) && idxs[b] == f(sample[b]));
            if a < b {
                assert(sample[a] != sample[b]);
            } else {
                assert(sample[b] != sample[a]);
            }
        }
    }
    idxs.unique_seq_to_set();
    let range = vstd::set_lib::set_int_range(0, n);
    vstd::set_lib::lemma_int_range(0, n);
    let target = range.remove(order as int);
    assert(target.len() == n - 1) by {
        assert(range.contains(order as int));
    }
    assert(idxs.to_set().subset_of(target)) by {
        assert forall|x: int| idxs.to_set().contains(x) implies target.contains(x) by {
            let q = choose|q: int| 0 <= q < idxs.len() && idxs[q] == x;
            assert(idxs[q] == f(sample[q]));
        }
    }
    vstd::set_lib::lemma_len_subset(idxs.to_set(), target);
    assert forall|x: int| target.contains(x) implies idxs.to_set().contains(x) by {
        if !idxs.to_set().contains(x) {
            assert(idxs.to_set().subset_of(target.remove(x))) by {
                assert forall|y: int| idxs.to_set().contains(y) implies target.remove(x).contains(
                    y) by {
                }
            }
            assert(target.remove(x).len() == n - 2) by {
                assert(target.contains(x));
            }
            vstd::set_lib::lemma_len_subset(idxs.to_set(), target.remove(x));
            assert(false);
        }
    }
    assert forall|x: usize| (x as int) < n && x as u64 != order implies #[trigger]
        sample.contains(x) by {
        assert(target.contains(x as int));
        assert(idxs.to_set().contains(x as int));
        assert(idxs.contains(x as int));
        let q = choose|q: int| 0 <= q < idxs.len() && idxs[q] == x as int;
        assert(idxs[q] == f(sample[q]));
        assert(sample[q] == x);
    }
}

/// The tag that prefixes the consensus data handed to the validator when a
/// block is finalized.
pub open spec fn consensus_tag() -> Seq<u8> {
    seq![83u8, 110u8, 111u8, 119u8, 98u8, 97u8, 108u8, 108u8]
}

/// The consensus data recorded with a finalized block: the protocol's tag
/// followed by the block summary.
pub fn create_consensus(summary: &Vec<u8>) -> (r: Vec<u8>)
    ensures
        r@ == consensus_tag() + summary@,
{
    let mut r: Vec<u8> = Vec::new();
    r.push(83);
    r.push(110);
    r.push(111);
    r.push(119);
    r.push(98);
    r.push(97);
    r.push(108);
    r.push(108);
    proof {
        assert(r@ =~= consensus_tag() + summary@.take(0));
    }
    let mut i: usize = 0;
    while i < summary.len()
        invariant
            i <= summary@.len(),
            r@ == consensus_tag() + summary@.take(i as int),
        decreases summary@.len() - i,
    {
        r.push(summary[i]);
        proof {
            assert(consensus_tag() + summary@.take(i + 1) =~= (consensus_tag()
                + summary@.take(i as int)).push(summary@[i as int]));
        }
        i += 1;
    }
    proof {
        assert(summary@.take(summary@.len() as int) =~= summary@);
    }
    r
}

/// Whether an index was already sampled.
fn contains_usize(v: &Vec<usize>, x: usize) -> (r: bool)
    ensures
        r == v@.contains(x),
{
    let mut i: usize = 0;
    while i < v.len()
        invariant
            i <= v@.len(),
            forall|q: int| 0 <= q < i ==> v@[q] != x,
        decreases v@.len() - i,
    {
        if v[i] == x {
            return true;
        }
        i += 1;
    }
    false
}

} // verus!
