use ipbridge::session::{
    session_timeout, total, ByteStats, Peer, Session, SessionTable, MAX_TIMEOUT, SECOND,
    SHORTEST_TIMEOUT,
};
use ipbridge::{proxy, tunnel};

fn peer(port: u16) -> Peer {
    Peer {
        v6: false,
        ip: 0x7f00_0001,
        port,
        flowinfo: 0,
        scope_id: 0,
    }
}

fn stale_session_is_removed(first_gap: u64) {
    let now: u64 = 1000 * SECOND;
    let mut sessions: SessionTable<&str> = SessionTable::new();
    sessions.insert(peer(10001), now - 61 * SECOND, first_gap, "dummy");
    let removed = sessions.cleanup_expired(now);
    assert_eq!(sessions.len(), 0);
    assert_eq!(removed.len(), 1);
    assert_eq!(removed[0].handle, "dummy");
}

fn active_session_is_kept(first_gap: u64) {
    let now: u64 = 1000 * SECOND;
    let mut sessions: SessionTable<&str> = SessionTable::new();
    sessions.insert(peer(10002), now, first_gap, "dummy");
    let removed = sessions.cleanup_expired(now);
    assert_eq!(sessions.len(), 1);
    assert!(removed.is_empty());
}

#[test]
fn proxy_test_cleanup_expired_removes_stale_sessions() {
    assert_eq!(proxy::MIN_TIMEOUT, 10 * SECOND);
    stale_session_is_removed(10 * SECOND);
}

#[test]
fn proxy_test_cleanup_expired_keeps_active_sessions() {
    active_session_is_kept(10 * SECOND);
}

#[test]
fn tunnel_test_cleanup_expired_removes_stale_sessions() {
    stale_session_is_removed(10 * SECOND);
}

#[test]
fn tunnel_test_cleanup_expired_keeps_active_sessions() {
    active_session_is_kept(10 * SECOND);
}

#[test]
fn timeout_is_three_times_the_longest_gap_within_bounds() {
    assert_eq!(SHORTEST_TIMEOUT, 30 * SECOND);
    assert_eq!(MAX_TIMEOUT, 180 * SECOND);
    assert_eq!(session_timeout(0), 30 * SECOND);
    assert_eq!(session_timeout(10 * SECOND), 30 * SECOND);
    assert_eq!(session_timeout(10 * SECOND + 1), 30 * SECOND + 3);
    assert_eq!(session_timeout(20 * SECOND), 60 * SECOND);
    assert_eq!(session_timeout(60 * SECOND), 180 * SECOND);
    assert_eq!(session_timeout(60 * SECOND + 1), 180 * SECOND);
    assert_eq!(session_timeout(u64::MAX), 180 * SECOND);
    assert_eq!(session_timeout(tunnel::MIN_TIMEOUT), 90 * SECOND);
}

#[test]
fn a_session_expires_exactly_at_its_timeout() {
    let session = Session {
        peer: peer(1),
        last_active: 100 * SECOND,
        max_gap: 20 * SECOND,
        handle: (),
    };
    assert!(!session.is_expired(160 * SECOND - 1));
    assert!(session.is_expired(160 * SECOND));
    // A clock that did not move on is no silence.
    assert!(!session.is_expired(0));
}

#[test]
fn cleanup_hands_out_what_it_takes_out_and_keeps_the_order() {
    let mut sessions: SessionTable<u16> = SessionTable::new();
    for port in 1..=6u16 {
        let last_active = if port % 2 == 0 { 0 } else { 100 * SECOND };
        sessions.insert(peer(port), last_active, 0, port);
    }
    let removed: Vec<u16> = sessions
        .cleanup_expired(100 * SECOND)
        .into_iter()
        .map(|s| s.handle)
        .collect();
    assert_eq!(removed, vec![2, 4, 6]);
    let kept: Vec<u16> = (0..sessions.len())
        .map(|i| sessions.get(i).handle)
        .collect();
    assert_eq!(kept, vec![1, 3, 5]);
    assert!(sessions.cleanup_expired(100 * SECOND).is_empty());
}

#[test]
fn hearing_of_a_peer_widens_its_gap() {
    let mut sessions: SessionTable<()> = SessionTable::new();
    assert_eq!(sessions.hear(peer(1), 0), None);
    assert_eq!(sessions.insert(peer(1), 0, 10 * SECOND, ()), 0);
    assert_eq!(sessions.hear(peer(1), 5 * SECOND), Some(0));
    assert_eq!(sessions.get(0).max_gap, 10 * SECOND);
    assert_eq!(sessions.get(0).last_active, 5 * SECOND);
    assert_eq!(sessions.hear(peer(1), 30 * SECOND), Some(0));
    assert_eq!(sessions.get(0).max_gap, 25 * SECOND);
    assert_eq!(sessions.get(0).last_active, 30 * SECOND);
    assert!(!sessions.get(0).is_expired(104 * SECOND));
    assert!(sessions.get(0).is_expired(105 * SECOND));
    assert_eq!(sessions.hear(peer(1), 29 * SECOND), Some(0));
    assert_eq!(sessions.get(0).max_gap, 25 * SECOND);
}

#[test]
fn a_peer_that_was_heard_of_survives_a_cleanup() {
    let mut sessions: SessionTable<()> = SessionTable::new();
    sessions.insert(peer(1), 0, 0, ());
    sessions.insert(peer(2), 0, 0, ());
    sessions.hear(peer(2), 500 * SECOND);
    assert_eq!(sessions.cleanup_expired(500 * SECOND).len(), 1);
    assert_eq!(sessions.get(0).peer, peer(2));
}

#[test]
fn an_expired_session_is_not_reused() {
    let mut sessions: SessionTable<u8> = SessionTable::new();
    sessions.insert(peer(1), 0, 0, 10);
    sessions.insert(peer(2), 20 * SECOND, 0, 20);
    let (removed, place) = sessions.arrive(peer(2), 29 * SECOND);
    assert!(removed.is_empty());
    assert_eq!(place, Some(1));
    assert_eq!(sessions.get(1).last_active, 29 * SECOND);
    assert_eq!(sessions.get(1).max_gap, 9 * SECOND);
    let (removed, place) = sessions.arrive(peer(1), 30 * SECOND);
    assert_eq!(removed.len(), 1);
    assert_eq!(removed[0].handle, 10);
    assert_eq!(place, None);
    assert_eq!(sessions.len(), 1);
    let (removed, place) = sessions.arrive(peer(2), 31 * SECOND);
    assert!(removed.is_empty());
    assert_eq!(place, Some(0));
    let (removed, place) = sessions.arrive(peer(3), 31 * SECOND);
    assert!(removed.is_empty());
    assert_eq!(place, None);
}

#[test]
fn a_peer_has_one_session() {
    let mut sessions: SessionTable<u8> = SessionTable::new();
    assert_eq!(sessions.insert(peer(1), 1, 1, 10), 0);
    assert_eq!(sessions.insert(peer(2), 2, 2, 20), 1);
    assert_eq!(sessions.insert(peer(1), 3, 3, 30), 0);
    assert_eq!(sessions.len(), 2);
    assert_eq!(sessions.get(0).handle, 30);
    assert_eq!(sessions.get(0).last_active, 3);
    assert_eq!(sessions.get(0).max_gap, 3);
    assert_eq!(sessions.hear(peer(2), 4), Some(1));
    let mut same_port = peer(1);
    same_port.v6 = true;
    assert_eq!(sessions.hear(same_port, 4), None);
}

#[test]
fn bytes_are_counted() {
    let mut stats = ByteStats::default();
    stats.add(100, 40);
    stats.add(1, 2);
    assert_eq!(
        stats,
        ByteStats {
            payload: 101,
            wire: 42
        }
    );
    assert!(stats.can_add(u64::MAX - 101, 0));
    assert!(!stats.can_add(u64::MAX - 100, 0));
    assert!(!stats.can_add(0, u64::MAX - 41));
}

#[test]
fn counts_are_summed_up() {
    assert_eq!(total(&vec![]), Some(ByteStats { payload: 0, wire: 0 }));
    let some = vec![
        ByteStats { payload: 1, wire: 10 },
        ByteStats { payload: 2, wire: 20 },
        ByteStats { payload: 3, wire: 30 },
    ];
    assert_eq!(total(&some), Some(ByteStats { payload: 6, wire: 60 }));
    let many = vec![
        ByteStats { payload: u64::MAX, wire: 0 },
        ByteStats { payload: 1, wire: 0 },
    ];
    assert_eq!(total(&many), None);
}

#[test]
fn a_new_session_of_a_tunnel_and_of_a_proxy() {
    let mut sessions: SessionTable<&str> = SessionTable::new();
    assert_eq!(tunnel::open_session(&mut sessions, peer(1), 5, "one"), 0);
    assert_eq!(proxy::open_session(&mut sessions, peer(2), 6, "two"), 1);
    assert_eq!(sessions.get(0).peer, peer(1));
    assert_eq!(sessions.get(0).last_active, 5);
    assert_eq!(sessions.get(0).max_gap, 30 * SECOND);
    assert_eq!(sessions.get(0).handle, "one");
    assert_eq!(sessions.get(1).max_gap, 10 * SECOND);
    assert!(!sessions.get(0).is_expired(90 * SECOND + 4));
    assert!(sessions.get(0).is_expired(90 * SECOND + 5));
    assert!(!sessions.get(1).is_expired(30 * SECOND + 5));
    assert!(sessions.get(1).is_expired(30 * SECOND + 6));
    assert_eq!(proxy::open_session(&mut sessions, peer(1), 7, "new"), 0);
    assert_eq!(sessions.len(), 2);
    assert_eq!(sessions.get(0).max_gap, 10 * SECOND);
    assert_eq!(sessions.get(1).handle, "two");
}
