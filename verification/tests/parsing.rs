use snowball::codec::{encode_message, parse_message};
use snowball::config::{get_members_from_settings, parse_u64_array, ConfigError, PolyShardConfig,
    RawSettings};
use snowball::message::{LogMessage, MessageKind, SnowballMessage};
use snowball::timing::{next_retry_delay, Ticker, Timeout};

fn raw_none() -> RawSettings {
    RawSettings {
        members: None,
        alfa: None,
        beta: None,
        k: None,
        block_publishing_delay: None,
        idle_timeout: None,
        hang_timeout: None,
        byzantine_enabled: None,
        byzantine_max_churn_timeout_millis: None,
        byzantine_max_sleep_delay_millis: None,
        byzantine_churn_idx: None,
        byzantine_hang_idx: None,
        byzantine_sleep_idx: None,
        byzantine_duplicate_idx: None,
        byzantine_spurious_idx: None,
        byzantine_wrong_decision_idx: None,
    }
}

fn raw_valid() -> RawSettings {
    let mut r = raw_none();
    r.members = Some(b"[\"ab01\",\"cd02\",\"ee\",\"ff\",\"0a\"]".to_vec());
    r.alfa = Some(b"3".to_vec());
    r.beta = Some(b"2".to_vec());
    r.k = Some(b"3".to_vec());
    r
}

#[test]
fn encode_exact_wire_form() {
    let m = SnowballMessage {
        message_type: MessageKind::Request,
        seq_num: 5,
        vote: 1,
        nonce: vec![17, 3, 255],
    };
    let bytes = encode_message(&m);
    assert_eq!(
        bytes,
        b"{\"message_type\":\"request\",\"seq_num\":5,\"vote\":1,\"nonce\":[17,3,255]}".to_vec()
    );
}

#[test]
fn encode_empty_nonce() {
    let mut m = SnowballMessage::new();
    m.message_type = MessageKind::Undefined;
    let bytes = encode_message(&m);
    assert_eq!(
        bytes,
        b"{\"message_type\":\"undefined\",\"seq_num\":0,\"vote\":0,\"nonce\":[]}".to_vec()
    );
}

#[test]
fn round_trip_preserves_fields() {
    for (kind, seq, vote, nonce) in [
        (MessageKind::Request, 0u64, 0u8, vec![]),
        (MessageKind::Response, u64::MAX, 1, vec![0, 255, 10]),
        (MessageKind::Unavailable, 12345, 7, vec![200]),
        (MessageKind::Undefined, 1, 255, vec![1, 2, 3, 4]),
    ] {
        let m = SnowballMessage { message_type: kind, seq_num: seq, vote, nonce: nonce.clone() };
        let parsed = parse_message(&encode_message(&m)).expect("round trip");
        assert_eq!(parsed.message_type, kind);
        assert_eq!(parsed.seq_num, seq);
        assert_eq!(parsed.vote, vote);
        assert_eq!(parsed.nonce, nonce);
    }
}

#[test]
fn parse_rejects_malformed() {
    assert!(parse_message(&b"".to_vec()).is_none());
    assert!(parse_message(&b"{}".to_vec()).is_none());
    assert!(parse_message(&b"{\"message_type\":\"poke\",\"seq_num\":5,\"vote\":1,\"nonce\":[]}"
        .to_vec())
        .is_none());
    // a leading zero is not the canonical decimal form
    assert!(parse_message(
        &b"{\"message_type\":\"request\",\"seq_num\":05,\"vote\":1,\"nonce\":[]}".to_vec()
    )
    .is_none());
    // a vote does not fit in one byte
    assert!(parse_message(
        &b"{\"message_type\":\"request\",\"seq_num\":5,\"vote\":256,\"nonce\":[]}".to_vec()
    )
    .is_none());
    // trailing garbage
    assert!(parse_message(
        &b"{\"message_type\":\"request\",\"seq_num\":5,\"vote\":1,\"nonce\":[]}x".to_vec()
    )
    .is_none());
    // dangling comma in the nonce list
    assert!(parse_message(
        &b"{\"message_type\":\"request\",\"seq_num\":5,\"vote\":1,\"nonce\":[1,]}".to_vec()
    )
    .is_none());
}

#[test]
fn members_decode_from_hex() {
    let ids = get_members_from_settings(&b"[\"ab01\",\"CD02\"]".to_vec()).expect("valid");
    assert_eq!(ids, vec![vec![0xab, 0x01], vec![0xcd, 0x02]]);
}

#[test]
fn members_empty_array() {
    let ids = get_members_from_settings(&b"[]".to_vec()).expect("valid");
    assert_eq!(ids, Vec::<Vec<u8>>::new());
}

#[test]
fn members_reject_bad_values() {
    assert_eq!(
        get_members_from_settings(&b"[\"ab0\"]".to_vec()),
        Err(ConfigError::InvalidMembers)
    );
    assert_eq!(
        get_members_from_settings(&b"[\"xyz1\"]".to_vec()),
        Err(ConfigError::InvalidMembers)
    );
    assert_eq!(get_members_from_settings(&b"ab01".to_vec()), Err(ConfigError::InvalidMembers));
}

#[test]
fn u64_array_parses_canonical_form() {
    assert_eq!(parse_u64_array(&b"[0,3,17]".to_vec()), Some(vec![0, 3, 17]));
    assert_eq!(parse_u64_array(&b"[]".to_vec()), Some(vec![]));
    assert_eq!(parse_u64_array(&b"[01]".to_vec()), None);
    assert_eq!(parse_u64_array(&b"[1,]".to_vec()), None);
    assert_eq!(parse_u64_array(&b"1,2".to_vec()), None);
}

#[test]
fn config_defaults() {
    let c = PolyShardConfig::default();
    assert_eq!(c.block_publishing_delay, 5000);
    assert_eq!(c.update_recv_timeout, 10);
    assert_eq!(c.exponential_retry_base, 100);
    assert_eq!(c.exponential_retry_max, 60000);
    assert_eq!(c.idle_timeout, 30000);
    assert_eq!(c.storage_location, "memory");
    assert!(!c.byzantine_enabled);
    assert_eq!(c.alfa, 0);
}

#[test]
fn load_settings_happy_path() {
    let mut c = PolyShardConfig::default();
    let mut raw = raw_valid();
    raw.block_publishing_delay = Some(b"750".to_vec());
    raw.hang_timeout = Some(b"123".to_vec());
    raw.byzantine_enabled = Some(b"true".to_vec());
    raw.byzantine_wrong_decision_idx = Some(b"[1,2]".to_vec());
    assert_eq!(c.load_settings(&raw), Ok(()));
    assert_eq!(c.members.len(), 5);
    assert_eq!(c.members[0], vec![0xab, 0x01]);
    assert_eq!(c.alfa, 3);
    assert_eq!(c.beta, 2);
    assert_eq!(c.k, 3);
    assert_eq!(c.block_publishing_delay, 750);
    assert_eq!(c.hang_timeout, 123);
    assert_eq!(c.idle_timeout, 30000);
    assert!(c.byzantine_enabled);
    assert_eq!(c.byzantine_wrong_decision_idx, vec![1, 2]);
}

#[test]
fn load_settings_reports_each_missing_or_bad_key() {
    let mut c = PolyShardConfig::default();
    assert_eq!(c.load_settings(&raw_none()), Err(ConfigError::MissingMembers));

    let mut raw = raw_none();
    raw.members = Some(b"[\"zz\"]".to_vec());
    assert_eq!(c.load_settings(&raw), Err(ConfigError::InvalidMembers));

    let mut raw = raw_valid();
    raw.alfa = None;
    assert_eq!(c.load_settings(&raw), Err(ConfigError::MissingAlfa));

    let mut raw = raw_valid();
    raw.alfa = Some(b"three".to_vec());
    assert_eq!(c.load_settings(&raw), Err(ConfigError::InvalidAlfa));

    let mut raw = raw_valid();
    raw.beta = None;
    assert_eq!(c.load_settings(&raw), Err(ConfigError::MissingBeta));

    let mut raw = raw_valid();
    raw.k = Some(b"".to_vec());
    assert_eq!(c.load_settings(&raw), Err(ConfigError::InvalidK));

    // a majority threshold above the sample size is unusable
    let mut raw = raw_valid();
    raw.alfa = Some(b"4".to_vec());
    assert_eq!(c.load_settings(&raw), Err(ConfigError::InvalidParameters));

    // a sample must leave this node out, so k must stay below the count
    let mut raw = raw_valid();
    raw.k = Some(b"5".to_vec());
    assert_eq!(c.load_settings(&raw), Err(ConfigError::InvalidParameters));

    // duplicate members (same bytes in different hex case) are refused
    let mut raw = raw_valid();
    raw.members = Some(b"[\"ab01\",\"AB01\",\"ee\",\"ff\",\"0a\"]".to_vec());
    assert_eq!(c.load_settings(&raw), Err(ConfigError::InvalidParameters));

    // nothing was changed by any failed load
    assert_eq!(c.members.len(), 0);
    assert_eq!(c.alfa, 0);
}

#[test]
fn ticker_fires_after_period() {
    let mut t = Ticker::new(100, 1000);
    assert!(!t.tick(1050));
    assert!(t.tick(1100));
    assert!(!t.tick(1150));
    assert!(t.tick(1200));
}

#[test]
fn timeout_checked_right_after_start_is_false() {
    let mut t = Timeout::new(50, 0);
    t.start(1000);
    assert!(!t.check_expired(1000));
    assert!(!t.check_expired(1050));
}

#[test]
fn timeout_expires_and_stays_expired() {
    let mut t = Timeout::new(50, 0);
    assert!(!t.check_expired(10_000));
    t.start(1000);
    assert!(t.check_expired(1051));
    // later checks keep reporting expiry, whatever time they pass
    assert!(t.check_expired(0));
    assert!(t.check_expired(1000));
    // until the timer is started afresh
    t.start(2000);
    assert!(!t.check_expired(2050));
}

#[test]
fn timeout_stop_and_is_active() {
    let mut t = Timeout::new(50, 0);
    assert!(!t.is_active());
    t.start(100);
    assert!(t.is_active());
    t.stop(200);
    assert!(!t.is_active());
    assert!(!t.check_expired(10_000));
}

#[test]
fn retry_delay_doubles_up_to_the_cap() {
    assert_eq!(next_retry_delay(100, 60000), 200);
    assert_eq!(next_retry_delay(40000, 60000), 60000);
    assert_eq!(next_retry_delay(60000, 60000), 60000);
    assert_eq!(next_retry_delay(70000, 60000), 70000);
    assert_eq!(next_retry_delay(u64::MAX / 2 + 1, u64::MAX), u64::MAX);
}

#[test]
fn log_message_starts_empty() {
    let m = LogMessage::new();
    assert_eq!(m.seq_num, 0);
    assert_eq!(m.block_id, "");
    assert_eq!(m.elapsed_time, 0);
}

#[test]
fn consensus_data_is_tagged_summary() {
    assert_eq!(
        snowball::node::create_consensus(&vec![1, 2]),
        b"Snowball\x01\x02".to_vec()
    );
    assert_eq!(snowball::node::create_consensus(&vec![]), b"Snowball".to_vec());
}
