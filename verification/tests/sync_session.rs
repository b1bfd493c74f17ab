use avoidant::board::CellMetadataEntry;
use avoidant::bridge::{
    finalize_display, local, present, receive, reveal_batches, tick, LocalAction,
    MutationOrigin, ReceiveAction,
};
use avoidant::score::ScoreState;
use avoidant::sync::{invitation_compatible, Message, Request, Session, Snapshot, PROTOCOL};

fn board(authority: Option<&str>, local: &str) -> Session {
    let mut s = Session::new(authority.map(str::to_owned));
    s.local_id = Some(local.into());
    // Two numbered safe cells, a void, then another safe cell.
    s.set_board(
        vec![vec![2], vec![2], vec![0, 1, 3], vec![2]],
        vec![
            CellMetadataEntry::new(false, false, 1),
            CellMetadataEntry::new(false, false, 1),
            CellMetadataEntry::new(false, true, 0),
            CellMetadataEntry::new(false, false, 1),
        ],
        1,
    );
    s
}

fn request(id: u64, index: usize) -> Request {
    Request { id, index }
}

fn same(host: &Session, peer: &Session) {
    assert_eq!(host.snapshot().explored, peer.snapshot().explored);
    assert_eq!(host.score, peer.score);
    assert_eq!(host.revision, peer.revision);
}

#[test]
fn late_join_receives_entire_board_and_score_without_replaying_moves() {
    let mut host = board(None, "host");
    host.apply("host", &request(1, 0), true);
    host.apply("host", &request(2, 2), true);
    host.apply("host", &request(3, 1), true);
    let mut peer = board(Some("host"), "peer");
    assert!(!peer.ready);
    assert!(peer.request(3, true).is_none());
    assert!(peer.accept("host", &host.snapshot(), &None));
    same(&host, &peer);
    assert!(peer.ready);
}

#[test]
fn concurrent_duplicate_requests_and_out_of_order_snapshots_converge() {
    let mut host = board(None, "host");
    let mut a = board(Some("host"), "a");
    let mut b = board(Some("host"), "b");
    a.accept("host", &host.snapshot(), &None);
    b.accept("host", &host.snapshot(), &None);
    let ra = a.request(0, true).unwrap();
    let rb = b.request(0, true).unwrap();
    assert!(host.apply("b", &rb, true));
    let older = host.snapshot();
    assert!(!host.apply("a", &ra, true));
    assert!(!host.apply("b", &rb, true));
    assert_eq!(host.score.safe_explored, 1);
    host.apply("a", &request(2, 2), true); // streak resets once
    host.apply("b", &request(2, 1), true);
    let latest = host.snapshot();
    a.accept("host", &latest, &Some(("a".into(), ra.id)));
    b.accept("host", &latest, &Some(("b".into(), rb.id)));
    assert!(!a.accept("host", &older, &None));
    assert!(!b.accept("host", &older, &None));
    assert!(a.pending.is_empty() && b.pending.is_empty());
    same(&host, &a);
    same(&host, &b);
}

#[test]
fn lost_move_or_receipt_can_be_retried_and_missing_snapshot_repaired() {
    let mut host = board(None, "host");
    let mut peer = board(Some("host"), "peer");
    peer.accept("host", &host.snapshot(), &None);
    let r = peer.request(1, true).unwrap();
    assert!(peer.pending.contains_key(&r.id));
    assert!(host.apply("peer", peer.pending.get(&r.id).unwrap(), true));
    // Snapshot/receipt lost; retry is acknowledged without scoring again.
    assert!(!host.apply("peer", peer.pending.get(&r.id).unwrap(), true));
    peer.accept("host", &host.snapshot(), &None);
    // A receipt in an equal-revision snapshot still clears the pending request.
    assert!(!peer.accept("host", &host.snapshot(), &Some(("peer".into(), r.id))));
    assert!(peer.pending.is_empty());
    same(&host, &peer);
}

#[test]
fn reject_non_host_and_malformed_snapshots() {
    let host = board(None, "host");
    let mut peer = board(Some("host"), "peer");
    assert!(!peer.accept("impostor", &host.snapshot(), &None));
    let mut invalid = host.snapshot();
    invalid.explored.pop();
    assert!(!peer.accept("host", &invalid, &None));
    assert!(!peer.ready);
}

#[test]
fn completion_and_overlapping_flood_reveals_are_scored_once() {
    let mut host = board(None, "host");
    host.metadata.iter_mut().for_each(|cell| {
        cell.is_void = false;
        cell.void_neighbor_count = 0;
    });
    host.score.reset_for_map(4, 0);
    assert!(host.apply("a", &request(1, 0), true));
    assert!(!host.apply("b", &request(1, 1), true));
    assert_eq!(host.score.safe_explored, 4);
    assert!(host.score.completed);
    assert_eq!(
        host.score.score_units as f64 / host.score.score_denominator() as f64,
        1.0 + 1.1 + 1.2 + 1.3 + 1.0
    );
    let mut peer = board(Some("host"), "peer");
    peer.score.reset_for_map(4, 0);
    peer.accept("host", &host.snapshot(), &None);
    same(&host, &peer);
}

#[test]
fn applied_request_counts_once_per_actor_and_id() {
    let mut host = board(None, "host");
    assert!(host.apply("p", &request(7, 0), true));
    assert_eq!(host.revision, 1);
    assert!(!host.apply("p", &request(7, 3), true));
    assert_eq!(host.revision, 1);
    assert!(host.apply("q", &request(7, 3), true));
    assert_eq!(host.revision, 2);
    assert_eq!(host.score.safe_explored, 2);
}

#[test]
fn non_finite_position_and_invalid_cells_are_refused() {
    let mut host = board(None, "host");
    assert!(!host.apply("p", &request(1, 0), false));
    assert!(!host.apply("p", &request(2, 9), true));
    assert_eq!(host.revision, 0);
    assert!(host.request(9, true).is_none());
    assert!(host.request(0, false).is_none());
    let r = host.request(0, true).unwrap();
    assert_eq!(r.index, 0);
    assert_eq!(r.id, 1);
}

#[test]
fn peer_rejects_requests_and_ignores_foreign_versions() {
    let mut peer = board(Some("host"), "peer");
    assert!(!peer.apply("x", &request(1, 0), true));
    let mut host = board(None, "host");
    let msg = Message::Request { version: PROTOCOL + 1, request: request(1, 0) };
    assert!(matches!(receive(&mut host, "peer", &msg, true), ReceiveAction::Ignore));
    assert_eq!(host.revision, 0);
}

#[test]
fn void_explore_resets_streak_and_applies_penalty() {
    let mut host = board(None, "host");
    host.apply("host", &request(1, 0), true);
    assert_eq!(host.score.streak, 1);
    host.apply("host", &request(2, 2), true);
    assert_eq!(host.score.streak, 0);
    assert_eq!(host.score.void_explored, 1);
    // One void among four cells: a safe step at streak 0 earns 20 units and
    // the void costs 20 * 3 = 60 units.
    assert_eq!(host.score.score_units, 20 - 60);
    assert_eq!(host.score.best_streak, 1);
}

#[test]
fn tick_publishes_host_state_and_repeats_peer_requests() {
    let host = board(None, "host");
    let out = tick(&host);
    assert_eq!(out.len(), 1);
    assert!(matches!(out[0], Message::State { receipt: None, movement: None, .. }));
    let mut peer = board(Some("host"), "peer");
    peer.accept("host", &host.snapshot(), &None);
    let r = peer.request(1, true).unwrap();
    let out = tick(&peer);
    assert_eq!(out.len(), 2);
    assert!(matches!(out[0], Message::Sync { version: PROTOCOL }));
    match &out[1] {
        Message::Request { version, request } => {
            assert_eq!(*version, PROTOCOL);
            assert_eq!(*request, r);
        }
        _ => panic!("expected a request"),
    }
    peer.stopped = true;
    assert!(tick(&peer).is_empty());
}

#[test]
fn local_move_applies_on_host_and_sends_from_peer() {
    let mut host = board(None, "host");
    match local(&mut host, 0, true) {
        LocalAction::HostApplied { request } => assert_eq!(request.index, 0),
        _ => panic!("host should apply its own move"),
    }
    assert_eq!(host.revision, 1);
    assert_eq!(local(&mut host, 0, true), LocalAction::Ignored);
    let mut peer = board(Some("host"), "peer");
    peer.accept("host", &host.snapshot(), &None);
    match local(&mut peer, 1, true) {
        LocalAction::SendRequest { request } => assert_eq!(request.index, 1),
        _ => panic!("peer should send its move"),
    }
    assert_eq!(peer.revision, 1);
    assert_eq!(peer.pending.len(), 1);
}

#[test]
fn receive_answers_requests_and_presents_new_state() {
    let mut host = board(None, "host");
    let mut peer = board(Some("host"), "peer");
    peer.accept("host", &host.snapshot(), &None);
    let r = peer.request(1, true).unwrap();
    let msg = Message::Request { version: PROTOCOL, request: r };
    let reply = match receive(&mut host, "peer", &msg, true) {
        ReceiveAction::Reply { message, applied } => {
            assert_eq!(applied, Some(r));
            message
        }
        _ => panic!("host should reply"),
    };
    match receive(&mut peer, "host", &reply, true) {
        ReceiveAction::Present { movement, origin } => {
            assert_eq!(movement, Some(r));
            assert_eq!(origin, MutationOrigin::Local);
        }
        _ => panic!("peer should present the new state"),
    }
    assert!(peer.pending.is_empty());
    same(&host, &peer);
    // The same state again is old news.
    assert!(matches!(receive(&mut peer, "host", &reply, true), ReceiveAction::Ignore));
}

#[test]
fn invitations_need_version_host_and_opening_cell() {
    assert!(invitation_compatible(Some(PROTOCOL), &Some("h".to_string()), Some(3)));
    assert!(!invitation_compatible(None, &Some("h".to_string()), Some(3)));
    assert!(!invitation_compatible(Some(PROTOCOL + 1), &Some("h".to_string()), Some(3)));
    assert!(!invitation_compatible(Some(PROTOCOL), &None, Some(3)));
    assert!(!invitation_compatible(Some(PROTOCOL), &Some("h".to_string()), None));
}

#[test]
fn present_display_animates_new_reveals_only_with_a_move() {
    let explored = CellMetadataEntry::new(true, false, 0);
    let hidden = CellMetadataEntry::new(false, false, 1);
    let entries = vec![explored, explored, hidden];
    let previous = vec![Some(explored), Some(hidden)];
    let (shown, animate) = present(&entries, &previous, true);
    assert_eq!(animate, vec![1]);
    assert!(shown[0].is_explored);
    assert!(!shown[1].is_explored);
    assert!(!shown[2].is_explored);
    let (shown, animate) = present(&entries, &previous, false);
    assert!(animate.is_empty());
    assert!(shown[1].is_explored);
    let mut display = vec![hidden, hidden];
    display[1].set_revealing(true);
    finalize_display(&mut display, &vec![1]);
    assert!(display[1].is_explored);
    assert!(!display[1].is_revealing);
    assert!(!display[0].is_explored);
}

#[test]
fn reveal_batches_group_by_frame_deadline() {
    let schedule = vec![(4, 0), (5, 10), (6, 16), (7, 17), (8, 40)];
    let (batches, rest) = reveal_batches(&schedule, 100);
    assert_eq!(
        batches,
        vec![(0, vec![4]), (16, vec![5, 6]), (16, vec![7]), (16, vec![8])]
    );
    assert_eq!(rest, 52);
    let (batches, rest) = reveal_batches(&vec![], 30);
    assert!(batches.is_empty());
    assert_eq!(rest, 30);
}

#[test]
fn snapshot_carries_explored_flags_and_score() {
    let mut host = board(None, "host");
    host.apply("host", &request(1, 3), true);
    let snap: Snapshot = host.snapshot();
    assert_eq!(snap.explored, vec![false, false, false, true]);
    assert_eq!(snap.revision, 1);
    assert_eq!(snap.score, host.score);
    let fresh = ScoreState::default();
    assert_eq!(fresh.score_units, 0);
}

#[test]
fn a_ready_peer_stays_ready() {
    let mut host = board(None, "host");
    let mut peer = board(Some("host"), "peer");
    let first = host.snapshot();
    assert!(peer.accept("host", &first, &None));
    host.apply("host", &request(1, 0), true);
    assert!(peer.accept("host", &host.snapshot(), &None));
    assert!(!peer.accept("host", &first, &None));
    assert!(peer.ready);
    assert!(peer.request(3, true).is_some());
    assert!(peer.ready);
}
