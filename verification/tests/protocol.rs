use snowball::codec::parse_message;
use snowball::ids::Block;
use snowball::message::{MessageKind, SnowballMessage};
use snowball::node::{Action, SnowballNode};
use snowball::state::{SnowballDecisionState, SnowballPhase, SnowballState};
use snowball::config::PolyShardConfig;

fn member(i: u8) -> Vec<u8> {
    vec![i + 1]
}

fn mk_config(n: u8, alfa: u64, beta: u64, k: u64) -> PolyShardConfig {
    let mut c = PolyShardConfig::default();
    c.members = (0..n).map(member).collect();
    c.alfa = alfa;
    c.beta = beta;
    c.k = k;
    c
}

fn mk_block(tag: u8, num: u64) -> Block {
    Block { block_id: vec![100 + tag], block_num: num, previous_id: vec![] }
}

/// Set up node 0 of an `n`-member network and feed it one new block,
/// so that it begins a decision round.
fn start_round(config: &PolyShardConfig) -> (SnowballNode, SnowballState, Vec<Action>, Vec<u8>) {
    let mut state = SnowballState::new(member(0), 0, config);
    let mut out: Vec<Action> = Vec::new();
    let mut node = SnowballNode::new(config, mk_block(0, 0), &mut state, &mut out);
    let block = mk_block(1, 1);
    let block_id = block.block_id.clone();
    assert!(node.on_block_new(block, &mut state, 111));
    node.handle_queue(&mut state, 0, 1_000, &mut out);
    assert_eq!(state.phase, SnowballPhase::Listening);
    (node, state, out, block_id)
}

fn waiting_peers(state: &SnowballState) -> Vec<Vec<u8>> {
    state.waiting_response_map.iter().map(|(p, _)| p.clone()).collect()
}

fn respond(node: &mut SnowballNode, state: &mut SnowballState, out: &mut Vec<Action>,
    votes: &[u8]) {
    let peers = waiting_peers(state);
    assert_eq!(peers.len(), votes.len());
    for (peer, vote) in peers.iter().zip(votes.iter()) {
        let payload = SnowballMessage {
            message_type: MessageKind::Response,
            seq_num: state.seq_num,
            vote: *vote,
            nonce: vec![],
        };
        assert!(node.on_peer_message(MessageKind::Response, peer, payload, state, 1_000, 222,
            out));
    }
}

fn commits(out: &[Action]) -> Vec<Vec<u8>> {
    out.iter()
        .filter_map(|a| match a {
            Action::CommitBlock { block_id } => Some(block_id.clone()),
            _ => None,
        })
        .collect()
}

fn fails(out: &[Action]) -> Vec<Vec<u8>> {
    out.iter()
        .filter_map(|a| match a {
            Action::FailBlock { block_id } => Some(block_id.clone()),
            _ => None,
        })
        .collect()
}

#[test]
fn fast_unanimous_accept() {
    let config = mk_config(5, 3, 2, 3);
    let (mut node, mut state, mut out, block_id) = start_round(&config);
    assert_eq!(state.seq_num, 2);
    respond(&mut node, &mut state, &mut out, &[1, 1, 1]);
    assert_eq!(state.confidence_counter, 1);
    assert_eq!(state.phase, SnowballPhase::Listening);
    respond(&mut node, &mut state, &mut out, &[1, 1, 1]);
    assert_eq!(state.phase, SnowballPhase::Idle);
    assert_eq!(commits(&out), vec![block_id.clone()]);
    assert_eq!(fails(&out), Vec::<Vec<u8>>::new());
    assert_eq!(state.chain_head, block_id);
    assert_eq!(state.seq_num, 2);
}

#[test]
fn flip_on_minority() {
    let config = mk_config(5, 3, 2, 3);
    let (mut node, mut state, mut out, block_id) = start_round(&config);
    // two KO and one OK: no colour reaches alfa, confidence resets
    respond(&mut node, &mut state, &mut out, &[0, 0, 1]);
    assert_eq!(state.confidence_counter, 0);
    assert_eq!(state.phase, SnowballPhase::Listening);
    respond(&mut node, &mut state, &mut out, &[1, 1, 1]);
    assert_eq!(state.confidence_counter, 1);
    assert_eq!(state.last_color, SnowballDecisionState::OK);
    respond(&mut node, &mut state, &mut out, &[1, 1, 1]);
    assert_eq!(state.phase, SnowballPhase::Idle);
    assert_eq!(commits(&out), vec![block_id]);
}

#[test]
fn unanimity_threshold_still_accumulates_confidence() {
    // alfa equal to k demands unanimity in every round
    let config = mk_config(5, 3, 2, 3);
    let (mut node, mut state, mut out, block_id) = start_round(&config);
    respond(&mut node, &mut state, &mut out, &[1, 1, 0]);
    assert_eq!(state.confidence_counter, 0);
    respond(&mut node, &mut state, &mut out, &[1, 1, 1]);
    assert_eq!(state.confidence_counter, 1);
    respond(&mut node, &mut state, &mut out, &[1, 1, 1]);
    assert_eq!(commits(&out), vec![block_id]);
}

#[test]
fn first_majority_decides_with_beta_one() {
    let config = mk_config(5, 3, 1, 3);
    let (mut node, mut state, mut out, block_id) = start_round(&config);
    respond(&mut node, &mut state, &mut out, &[1, 1, 1]);
    assert_eq!(state.phase, SnowballPhase::Idle);
    assert_eq!(commits(&out), vec![block_id]);
}

#[test]
fn unanimous_reject_fails_the_block() {
    let config = mk_config(5, 3, 1, 3);
    let (mut node, mut state, mut out, block_id) = start_round(&config);
    respond(&mut node, &mut state, &mut out, &[0, 0, 0]);
    assert_eq!(state.phase, SnowballPhase::Idle);
    assert_eq!(fails(&out), vec![block_id]);
    assert_eq!(commits(&out), Vec::<Vec<u8>>::new());
    assert_eq!(state.chain_head, vec![100]);
}

#[test]
fn old_block_is_failed_and_dropped() {
    let config = mk_config(5, 3, 2, 3);
    let mut state = SnowballState::new(member(0), 10, &config);
    let mut out: Vec<Action> = Vec::new();
    let mut node = SnowballNode::new(&config, mk_block(0, 10), &mut state, &mut out);
    let seq_before = state.seq_num;
    assert!(node.on_block_new(mk_block(1, 7), &mut state, 111));
    node.handle_queue(&mut state, 10, 1_000, &mut out);
    assert_eq!(fails(&out), vec![vec![101]]);
    assert_eq!(state.phase, SnowballPhase::Idle);
    assert_eq!(state.seq_num, seq_before);
    assert_eq!(node.block_queue.len(), 0);
}

#[test]
fn out_of_phase_response_is_dropped() {
    let config = mk_config(5, 3, 2, 3);
    let mut state = SnowballState::new(member(0), 0, &config);
    let mut out: Vec<Action> = Vec::new();
    let mut node = SnowballNode::new(&config, mk_block(0, 0), &mut state, &mut out);
    let buffer_before = state.response_buffer;
    let payload = SnowballMessage {
        message_type: MessageKind::Response,
        seq_num: state.seq_num,
        vote: 1,
        nonce: vec![],
    };
    let actions_before = out.len();
    assert!(!node.on_peer_message(MessageKind::Response, &member(1), payload, &mut state, 1_000,
        222, &mut out));
    assert_eq!(state.response_buffer, buffer_before);
    assert_eq!(out.len(), actions_before);
}

#[test]
fn unsolicited_response_is_dropped() {
    let config = mk_config(5, 3, 2, 3);
    let (mut node, mut state, mut out, _) = start_round(&config);
    // find a member that is not being waited on
    let waited = waiting_peers(&state);
    let stranger = (0..5).map(member).find(|m| *m != member(0) && !waited.contains(m));
    if let Some(stranger) = stranger {
        let payload = SnowballMessage {
            message_type: MessageKind::Response,
            seq_num: state.seq_num,
            vote: 1,
            nonce: vec![],
        };
        let buffer_before = state.response_buffer;
        assert!(!node.on_peer_message(MessageKind::Response, &stranger, payload, &mut state,
            1_000, 222, &mut out));
        assert_eq!(state.response_buffer, buffer_before);
    }
}

#[test]
fn invalid_vote_is_dropped() {
    let config = mk_config(5, 3, 2, 3);
    let (mut node, mut state, mut out, _) = start_round(&config);
    let peer = waiting_peers(&state)[0].clone();
    let payload = SnowballMessage {
        message_type: MessageKind::Response,
        seq_num: state.seq_num,
        vote: 2,
        nonce: vec![],
    };
    assert!(!node.on_peer_message(MessageKind::Response, &peer, payload, &mut state, 1_000, 222,
        &mut out));
    assert_eq!(state.response_buffer, [0, 0]);
    // the sender was still removed from the waiting set
    assert_eq!(state.waiting_response_map.len(), 2);
}

#[test]
fn unavailable_reply_causes_resample() {
    let config = mk_config(5, 3, 2, 3);
    let (mut node, mut state, mut out, _) = start_round(&config);
    let peer = waiting_peers(&state)[0].clone();
    let buffer_before = state.response_buffer;
    let requests_before = out
        .iter()
        .filter(|a| matches!(a, Action::SendTo { kind: MessageKind::Request, .. }))
        .count();
    let payload = SnowballMessage {
        message_type: MessageKind::Unavailable,
        seq_num: state.seq_num + 1,
        vote: 0,
        nonce: vec![],
    };
    assert!(node.on_peer_message(MessageKind::Unavailable, &peer, payload, &mut state, 1_000,
        222, &mut out));
    assert_eq!(state.response_buffer, buffer_before);
    assert_eq!(state.waiting_response_map.len(), 3);
    let requests_after = out
        .iter()
        .filter(|a| matches!(a, Action::SendTo { kind: MessageKind::Request, .. }))
        .count();
    assert_eq!(requests_after, requests_before + 1);
}

#[test]
fn expired_peers_are_replaced() {
    let mut config = mk_config(5, 3, 2, 3);
    config.hang_timeout = 10;
    let (mut node, mut state, mut out, _) = start_round(&config);
    // well past the hang timeout, every sampled peer has expired
    node.handle_unresponsive_peers(&mut state, 50_000, &mut out);
    assert_eq!(state.waiting_response_map.len(), 3);
    // replacements were polled, and their answers still count
    respond(&mut node, &mut state, &mut out, &[1, 1, 1]);
    assert_eq!(state.confidence_counter, 1);
}

#[test]
fn every_other_member_sampled_when_k_is_n_minus_1() {
    let config = mk_config(4, 2, 2, 3);
    let (_, state, _, _) = start_round(&config);
    let waited = waiting_peers(&state);
    assert_eq!(waited.len(), 3);
    for i in 1..4 {
        assert!(waited.contains(&member(i)));
    }
    assert!(!waited.contains(&member(0)));
}

#[test]
fn request_is_answered_with_own_colour() {
    let config = mk_config(5, 3, 2, 3);
    let (mut node, mut state, mut out, _) = start_round(&config);
    let before = out.len();
    let payload = SnowballMessage {
        message_type: MessageKind::Request,
        seq_num: state.seq_num,
        vote: 0,
        nonce: vec![],
    };
    assert!(node.on_peer_message(MessageKind::Request, &member(1), payload, &mut state, 1_000,
        222, &mut out));
    match &out[before] {
        Action::SendTo { peer, kind, payload } => {
            assert_eq!(peer, &member(1));
            assert_eq!(*kind, MessageKind::Response);
            let m = parse_message(payload).expect("wire form");
            assert_eq!(m.message_type, MessageKind::Response);
            // the initial preference is OK, so the vote is 1
            assert_eq!(m.vote, 1);
            assert_eq!(m.seq_num, state.seq_num);
            assert_eq!(m.nonce.len(), 24);
        }
        other => panic!("expected a send, got {:?}", discriminant_name(other)),
    }
}

#[test]
fn request_ahead_of_us_gets_unavailable() {
    let config = mk_config(5, 3, 2, 3);
    let (mut node, mut state, mut out, _) = start_round(&config);
    let before = out.len();
    let payload = SnowballMessage {
        message_type: MessageKind::Request,
        seq_num: state.seq_num + 5,
        vote: 0,
        nonce: vec![],
    };
    assert!(!node.on_peer_message(MessageKind::Request, &member(1), payload, &mut state, 1_000,
        222, &mut out));
    match &out[before] {
        Action::SendTo { kind, payload, .. } => {
            assert_eq!(*kind, MessageKind::Unavailable);
            let m = parse_message(payload).expect("wire form");
            assert_eq!(m.seq_num, state.seq_num + 5);
        }
        other => panic!("expected a send, got {:?}", discriminant_name(other)),
    }
}

fn discriminant_name(a: &Action) -> &'static str {
    match a {
        Action::SendTo { .. } => "SendTo",
        Action::Sleep { .. } => "Sleep",
        Action::CommitBlock { .. } => "CommitBlock",
        Action::FailBlock { .. } => "FailBlock",
        Action::InitializeBlock => "InitializeBlock",
        Action::CancelBlock => "CancelBlock",
        Action::CheckBlocks { .. } => "CheckBlocks",
    }
}

#[test]
fn wrong_decision_node_votes_zero() {
    let mut config = mk_config(5, 3, 2, 3);
    config.byzantine_enabled = true;
    config.byzantine_wrong_decision_idx = vec![0];
    let (mut node, mut state, mut out, _) = start_round(&config);
    let before = out.len();
    let payload = SnowballMessage {
        message_type: MessageKind::Request,
        seq_num: state.seq_num,
        vote: 0,
        nonce: vec![],
    };
    assert!(node.on_peer_message(MessageKind::Request, &member(1), payload, &mut state, 1_000,
        222, &mut out));
    match &out[before] {
        Action::SendTo { payload, .. } => {
            let m = parse_message(payload).expect("wire form");
            // the honest answer would be 1; the fault rewrites it to 0
            assert_eq!(m.vote, 0);
        }
        other => panic!("expected a send, got {:?}", discriminant_name(other)),
    }
}

#[test]
fn duplicating_node_sends_twice() {
    let mut config = mk_config(5, 3, 2, 3);
    config.byzantine_enabled = true;
    config.byzantine_duplicate_idx = vec![0];
    let (mut node, mut state, mut out, _) = start_round(&config);
    let before = out.len();
    let payload = SnowballMessage {
        message_type: MessageKind::Request,
        seq_num: state.seq_num,
        vote: 0,
        nonce: vec![],
    };
    assert!(node.on_peer_message(MessageKind::Request, &member(1), payload, &mut state, 1_000,
        222, &mut out));
    assert_eq!(out.len(), before + 2);
}

#[test]
fn hung_node_sends_nothing() {
    let mut config = mk_config(5, 3, 2, 3);
    config.byzantine_enabled = true;
    config.byzantine_hang_idx = vec![0];
    let (mut node, mut state, mut out, _) = start_round(&config);
    let before = out.len();
    let payload = SnowballMessage {
        message_type: MessageKind::Request,
        seq_num: state.seq_num,
        vote: 0,
        nonce: vec![],
    };
    assert!(node.on_peer_message(MessageKind::Request, &member(1), payload, &mut state, 1_000,
        222, &mut out));
    assert_eq!(out.len(), before);
}

#[test]
fn sample_is_distinct_in_range_and_never_self() {
    let config = mk_config(7, 3, 2, 3);
    let mut state = SnowballState::new(member(2), 0, &config);
    let mut out: Vec<Action> = Vec::new();
    let mut node = SnowballNode::new(&config, mk_block(0, 0), &mut state, &mut out);
    for _ in 0..50 {
        let sample = node.select_node_sample(&state, 4);
        assert_eq!(sample.len(), 4);
        for (i, a) in sample.iter().enumerate() {
            assert!(*a < 7);
            assert_ne!(*a as u64, state.order);
            for b in sample.iter().skip(i + 1) {
                assert_ne!(a, b);
            }
        }
    }
}

#[test]
fn repeated_block_commit_is_idempotent() {
    let config = mk_config(5, 3, 1, 3);
    let (mut node, mut state, mut out, block_id) = start_round(&config);
    respond(&mut node, &mut state, &mut out, &[1, 1, 1]);
    assert_eq!(commits(&out), vec![block_id.clone()]);
    let actions_after_decision = out.len();
    // the commit notifications arrive afterwards; the block is already
    // popped, so nothing further happens on either of them
    assert!(node.on_block_commit(block_id.clone(), &mut state));
    assert!(node.on_block_commit(block_id.clone(), &mut state));
    assert_eq!(out.len(), actions_after_decision);
    assert_eq!(commits(&out).len(), 1);
    assert_eq!(node.block_queue.len(), 0);
}

#[test]
fn seq_num_increases_once_per_block() {
    let config = mk_config(5, 3, 1, 3);
    let (mut node, mut state, mut out, _) = start_round(&config);
    assert_eq!(state.seq_num, 2);
    respond(&mut node, &mut state, &mut out, &[1, 1, 1]);
    assert!(node.on_block_new(mk_block(2, 2), &mut state, 333));
    node.handle_queue(&mut state, 1, 2_000, &mut out);
    assert_eq!(state.seq_num, 3);
}

#[test]
fn membership_changes_recompute_order() {
    let config = mk_config(5, 3, 2, 3);
    let mut state = SnowballState::new(member(2), 0, &config);
    let mut out: Vec<Action> = Vec::new();
    let mut node = SnowballNode::new(&config, mk_block(0, 0), &mut state, &mut out);
    assert_eq!(state.order, 2);
    assert!(node.on_peer_connected(vec![99], &mut state));
    assert_eq!(state.member_ids.len(), 6);
    assert_eq!(state.order, 2);
    // a reconnect of a known member changes nothing
    assert!(node.on_peer_connected(vec![99], &mut state));
    assert_eq!(state.member_ids.len(), 6);
    assert!(node.on_peer_disconnected(member(0), &mut state));
    assert_eq!(state.member_ids.len(), 5);
    assert_eq!(state.order, 1);
}

#[test]
fn only_the_proposer_publishes_when_idle() {
    let config = mk_config(5, 3, 2, 3);
    let mut state = SnowballState::new(member(0), 0, &config);
    let mut out: Vec<Action> = Vec::new();
    let mut node = SnowballNode::new(&config, mk_block(0, 0), &mut state, &mut out);
    assert!(node.try_publish(&mut state));
    let mut state2 = SnowballState::new(member(1), 0, &config);
    let mut node2 = SnowballNode::new(&config, mk_block(0, 0), &mut state2, &mut out);
    assert!(!node2.try_publish(&mut state2));
}

#[test]
fn request_nonces_are_fresh_random_bytes() {
    let config = mk_config(5, 3, 2, 3);
    let (_, _, out, _) = start_round(&config);
    for a in &out {
        if let Action::SendTo { payload, .. } = a {
            let m = parse_message(payload).expect("wire form");
            assert_eq!(m.nonce.len(), 24);
        }
    }
}

#[test]
fn sleepy_node_asks_for_a_delay_before_sending() {
    let mut config = mk_config(5, 3, 2, 3);
    config.byzantine_enabled = true;
    config.byzantine_sleep_idx = vec![0];
    config.byzantine_max_sleep_delay_millis = 40;
    let (mut node, mut state, mut out, _) = start_round(&config);
    let before = out.len();
    let payload = SnowballMessage {
        message_type: MessageKind::Request,
        seq_num: state.seq_num,
        vote: 0,
        nonce: vec![],
    };
    assert!(node.on_peer_message(MessageKind::Request, &member(1), payload, &mut state, 1_000,
        222, &mut out));
    assert!(matches!(out[before], Action::Sleep { millis: 40 }));
    assert!(matches!(out[before + 1], Action::SendTo { .. }));
}

#[test]
fn spurious_node_still_sends_well_formed_payloads() {
    let mut config = mk_config(5, 3, 2, 3);
    config.byzantine_enabled = true;
    config.byzantine_spurious_idx = vec![0];
    let (_, _, out, _) = start_round(&config);
    let mut sends = 0;
    for a in &out {
        if let Action::SendTo { payload, .. } = a {
            // the payload still parses; only the sequence number is junk
            let m = parse_message(payload).expect("wire form");
            assert_eq!(m.message_type, MessageKind::Request);
            assert_eq!(m.vote, 0);
            sends += 1;
        }
    }
    assert_eq!(sends, 3);
}

#[test]
fn unknown_message_kind_is_ignored() {
    let config = mk_config(5, 3, 2, 3);
    let (mut node, mut state, mut out, _) = start_round(&config);
    let before = out.len();
    let buffer_before = state.response_buffer;
    let payload = SnowballMessage::new();
    assert!(node.on_peer_message(MessageKind::Undefined, &member(1), payload, &mut state, 1_000,
        222, &mut out));
    assert_eq!(out.len(), before);
    assert_eq!(state.response_buffer, buffer_before);
    assert_eq!(state.waiting_response_map.len(), 3);
}
