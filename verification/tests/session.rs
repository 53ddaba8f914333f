use memory_cache::codec::decode;
use memory_cache::codec::encode;
use memory_cache::codec::CacheEntry;
use memory_cache::session::SessionState;
use memory_cache::session::SyncOutcome;
use memory_cache::session::SyncSession;
use memory_cache::session::TransportEvent;
use memory_cache::store::MemoryCache;

fn syncing_session(cache: &mut MemoryCache) -> SyncSession {
    let mut session = SyncSession::new("ws://peer".to_string());
    session.start();
    let outcome = session.on_event(cache, TransportEvent::Opened);
    assert!(matches!(outcome, SyncOutcome::Push(_)));
    assert_eq!(session.state(), SessionState::Syncing);
    session
}

#[test]
fn session_starts_idle_then_connects() {
    let mut session = SyncSession::new("ws://peer".to_string());
    assert_eq!(session.state(), SessionState::Idle);
    assert_eq!(session.target().as_str(), "ws://peer");
    session.start();
    assert_eq!(session.state(), SessionState::Connecting);
}

#[test]
fn start_sync_yields_connecting_session() {
    let session = SyncSession::start_sync("ws://peer".to_string());
    assert_eq!(session.state(), SessionState::Connecting);
    assert_eq!(session.target().as_str(), "ws://peer");
}

#[test]
fn push_on_connect_is_key_ordered() {
    let mut cache = MemoryCache::new();
    cache.insert("b".to_string(), "2".to_string());
    cache.insert("c".to_string(), "3".to_string());
    cache.insert("a".to_string(), "1".to_string());
    let mut session = SyncSession::new("ws://peer".to_string());
    session.start();
    let outcome = session.on_event(&mut cache, TransportEvent::Opened);
    let msgs = match outcome {
        SyncOutcome::Push(msgs) => msgs,
        _ => panic!("expected a push"),
    };
    assert_eq!(msgs.len(), 3);
    let decoded: Vec<(String, String)> = msgs
        .iter()
        .map(|m| {
            let e = decode(m).unwrap();
            (e.key, e.value)
        })
        .collect();
    assert_eq!(
        decoded,
        vec![
            ("a".to_string(), "1".to_string()),
            ("b".to_string(), "2".to_string()),
            ("c".to_string(), "3".to_string()),
        ]
    );
}

#[test]
fn inbound_message_is_applied_to_empty_store() {
    let mut cache = MemoryCache::new();
    let mut session = syncing_session(&mut cache);
    let msg = encode(&CacheEntry { key: "x".to_string(), value: "y".to_string() });
    let outcome = session.on_event(&mut cache, TransportEvent::Message(msg));
    assert!(matches!(outcome, SyncOutcome::Applied));
    assert_eq!(cache.get("x".to_string()), Some("y".to_string()));
}

#[test]
fn inbound_message_overwrites_existing_entry() {
    let mut cache = MemoryCache::new();
    cache.insert("x".to_string(), "old".to_string());
    let mut session = syncing_session(&mut cache);
    let msg = encode(&CacheEntry { key: "x".to_string(), value: "new".to_string() });
    session.on_event(&mut cache, TransportEvent::Message(msg));
    assert_eq!(cache.get("x".to_string()), Some("new".to_string()));
}

#[test]
fn malformed_inbound_message_changes_nothing_and_session_goes_on() {
    let mut cache = MemoryCache::new();
    cache.insert("keep".to_string(), "me".to_string());
    let mut session = syncing_session(&mut cache);
    let before = cache.get_all();
    let outcome = session.on_event(&mut cache, TransportEvent::Message(b"not a message".to_vec()));
    assert!(matches!(outcome, SyncOutcome::Rejected(_)));
    assert_eq!(cache.get_all(), before);
    assert_eq!(session.state(), SessionState::Syncing);
    let msg = encode(&CacheEntry { key: "x".to_string(), value: "y".to_string() });
    let outcome = session.on_event(&mut cache, TransportEvent::Message(msg));
    assert!(matches!(outcome, SyncOutcome::Applied));
    assert_eq!(cache.get("x".to_string()), Some("y".to_string()));
    assert_eq!(cache.get("keep".to_string()), Some("me".to_string()));
}

#[test]
fn connection_failure_ends_session_in_errored() {
    let mut cache = MemoryCache::new();
    let mut session = SyncSession::new("ws://peer".to_string());
    session.start();
    let outcome = session.on_event(&mut cache, TransportEvent::Failed);
    assert!(matches!(outcome, SyncOutcome::ConnectFailed));
    assert_eq!(session.state(), SessionState::Errored);
}

#[test]
fn normal_close_ends_session_in_closed() {
    let mut cache = MemoryCache::new();
    let mut session = syncing_session(&mut cache);
    let outcome = session.on_event(&mut cache, TransportEvent::Closed);
    assert!(matches!(outcome, SyncOutcome::Disconnected));
    assert_eq!(session.state(), SessionState::Closed);
}

#[test]
fn transport_failure_while_syncing_keeps_applied_entries() {
    let mut cache = MemoryCache::new();
    let mut session = syncing_session(&mut cache);
    let msg = encode(&CacheEntry { key: "x".to_string(), value: "y".to_string() });
    session.on_event(&mut cache, TransportEvent::Message(msg));
    let outcome = session.on_event(&mut cache, TransportEvent::Failed);
    assert!(matches!(outcome, SyncOutcome::TransportFailed));
    assert_eq!(session.state(), SessionState::Errored);
    assert_eq!(cache.get("x".to_string()), Some("y".to_string()));
}

#[test]
fn send_failure_aborts_push() {
    let mut cache = MemoryCache::new();
    let mut session = syncing_session(&mut cache);
    session.on_send_failed();
    assert_eq!(session.state(), SessionState::Errored);
}

#[test]
fn events_in_terminal_states_are_ignored() {
    let mut cache = MemoryCache::new();
    cache.insert("a".to_string(), "1".to_string());
    let mut session = syncing_session(&mut cache);
    session.on_event(&mut cache, TransportEvent::Closed);
    let before = cache.get_all();
    let msg = encode(&CacheEntry { key: "x".to_string(), value: "y".to_string() });
    let outcome = session.on_event(&mut cache, TransportEvent::Message(msg));
    assert!(matches!(outcome, SyncOutcome::Ignored));
    assert_eq!(cache.get_all(), before);
    assert_eq!(session.state(), SessionState::Closed);
}

#[test]
fn interleaved_callers_on_disjoint_keys_see_whole_values() {
    // Callers working disjoint keys in alternation: each lookup sees either
    // the prior or the new value for that key in full, never a mixture.
    let mut cache = MemoryCache::new();
    for round in 0..10u32 {
        cache.insert("first".to_string(), format!("f{round}"));
        assert_eq!(cache.get("second".to_string()).is_some(), round > 0);
        cache.insert("second".to_string(), format!("s{round}"));
        assert_eq!(cache.get("first".to_string()), Some(format!("f{round}")));
        assert_eq!(cache.get("second".to_string()), Some(format!("s{round}")));
    }
    assert_eq!(cache.remove("first".to_string()), Some("f9".to_string()));
    assert_eq!(cache.get("second".to_string()), Some("s9".to_string()));
}
