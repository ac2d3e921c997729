use surveillance::sessions::{ends_session, PeerState, SessionTable};

#[test]
fn sessions_are_numbered_from_one() {
    let mut t: SessionTable<&str> = SessionTable::new();
    let a = t.allocate();
    let b = t.allocate();
    assert_eq!((a, b), (1, 2));
    t.add_session(b, "b");
    t.add_session(a, "a");
    assert_eq!(t.ids(), [2, 1]);
}

#[test]
fn sessions_are_taken_out() {
    let mut t: SessionTable<&str> = SessionTable::new();
    for name in ["a", "b", "c"] {
        let id = t.allocate();
        t.add_session(id, name);
    }
    assert_eq!(t.remove_session(2), Some("b"));
    assert_eq!(t.remove_session(2), None);
    assert_eq!(t.ids(), [1, 3]);
    assert_eq!(t.take_all(), vec![(1, "a"), (3, "c")]);
    assert!(t.ids().is_empty());
    assert_eq!(t.allocate(), 4);
}

#[test]
fn a_session_ends_when_the_connection_fails_or_closes() {
    for s in [
        PeerState::Unspecified,
        PeerState::New,
        PeerState::Connecting,
        PeerState::Connected,
        PeerState::Disconnected,
    ] {
        assert!(!ends_session(s));
    }
    assert!(ends_session(PeerState::Failed) && ends_session(PeerState::Closed));
}
