use avoidant::board::CellMetadataEntry;
use avoidant::bridge::{mark_revealing, sort_schedule};
use avoidant::score::{max_score_units, ScoreState};
use avoidant::setup::{install_generated_board, place_first_voids, SetupError};
use avoidant::sync::{Request, Session};
use avoidant::voids::{board_metadata, compute_void_mask, count_voids};

fn ring(n: u32) -> Vec<Vec<u32>> {
    (0..n).map(|i| vec![(i + n - 1) % n, (i + 1) % n]).collect()
}

fn fresh_host() -> Session {
    let mut s = Session::new(None);
    s.local_id = Some("host".into());
    s
}

#[test]
fn opening_cell_outside_the_map_is_refused_and_changes_nothing() {
    let mut s = fresh_host();
    assert_eq!(
        install_generated_board(&mut s, ring(6), Some(6), 9, 2),
        Err(SetupError::InvalidOpeningCell)
    );
    assert!(s.metadata.is_empty());
    assert!(s.neighbors.is_empty());
    assert_eq!(s.score, ScoreState::default());
}

#[test]
fn known_opening_cell_places_voids_around_it() {
    let mut s = fresh_host();
    assert_eq!(install_generated_board(&mut s, ring(8), Some(3), 5, 3), Ok(()));
    let mask = compute_void_mask(8, 5, 3, 3);
    assert_eq!(s.metadata, board_metadata(&ring(8), &mask));
    assert!(!s.metadata[3].is_void);
    assert_eq!(s.metadata.iter().filter(|e| e.is_void).count(), 3);
    assert_eq!(s.neighbors, ring(8));
    assert_eq!(s.score.total_cells, 8);
    assert_eq!(s.score.void_total, 3);
    assert_eq!(s.revision, 0);
}

#[test]
fn unknown_opening_cell_leaves_the_board_without_voids() {
    let mut s = fresh_host();
    assert_eq!(install_generated_board(&mut s, ring(5), None, 5, 9), Ok(()));
    assert!(s.metadata.iter().all(|e| *e == CellMetadataEntry::new(false, false, 0)));
    // The recorded void total is capped at one less than the cell count.
    assert_eq!(s.score.void_total, 4);
    assert_eq!(s.score.total_cells, 5);
}

#[test]
fn first_voids_are_placed_once_around_the_first_explore() {
    let mut s = fresh_host();
    let mut first = None;
    install_generated_board(&mut s, ring(10), first, 1, 4).unwrap();
    assert_eq!(
        place_first_voids(&mut s, &mut first, ring(10), 10, 1, 4),
        Err(SetupError::InvalidExplorationCell)
    );
    assert_eq!(first, None);
    assert_eq!(place_first_voids(&mut s, &mut first, ring(10), 2, 1, 4), Ok(()));
    assert_eq!(first, Some(2));
    let mask = compute_void_mask(10, 1, 4, 2);
    assert_eq!(s.metadata, board_metadata(&ring(10), &mask));
    assert_eq!(s.score.void_total as usize, count_voids(&mask));
    assert_eq!(s.score.void_total, 4);
    let placed = s.metadata.clone();
    assert_eq!(place_first_voids(&mut s, &mut first, ring(10), 7, 99, 1), Ok(()));
    assert_eq!(first, Some(2));
    assert_eq!(s.metadata, placed);
}

#[test]
fn schedule_is_sorted_by_finish_time_keeping_ties_in_order() {
    let schedule = vec![(4, 30), (1, 10), (7, 30), (2, 5), (9, 10), (3, 30)];
    assert_eq!(
        sort_schedule(&schedule),
        vec![(2, 5), (1, 10), (9, 10), (4, 30), (7, 30), (3, 30)]
    );
    assert!(sort_schedule(&Vec::new()).is_empty());
}

#[test]
fn marking_cells_revealing_skips_indices_past_the_board() {
    let mut display = vec![CellMetadataEntry::new(false, false, 1); 3];
    mark_revealing(&mut display, &vec![2, 7, 0]);
    assert!(display[0].is_revealing);
    assert!(!display[1].is_revealing);
    assert!(display[2].is_revealing);
    assert_eq!(display[1], CellMetadataEntry::new(false, false, 1));
    assert!(!display[0].is_explored);
}

#[test]
fn completion_turns_on_at_the_last_safe_cell_with_one_bonus() {
    let mut s = ScoreState::default();
    s.reset_for_map(5, 1);
    let mut scores = Vec::new();
    for _ in 0..3 {
        s.explore(false);
        assert!(!s.completed);
        scores.push(s.score_units);
    }
    s.explore(true);
    assert!(!s.completed);
    let before_last = s.score_units;
    s.explore(false);
    assert!(s.completed);
    // Streak restarted after the void: reward 20 units plus the bonus of 20.
    assert_eq!(s.score_units, before_last + 20 + 20);
    let after = s.score_units;
    s.explore(true);
    assert!(s.completed);
    assert_eq!(s.score_units, after - 80);
    assert_eq!(s.total_cells, 5);
    assert_eq!(s.void_total, 1);
}

#[test]
fn a_clean_sweep_reaches_the_maximum_exactly() {
    let mut s = ScoreState::default();
    s.reset_for_map(5, 1);
    let max = max_score_units(4, 1).unwrap();
    assert_eq!(max, 112);
    for _ in 0..4 {
        s.explore(false);
        assert!(s.score_units as u128 <= max);
    }
    assert_eq!(s.score_units as u128, max);
    assert_eq!(max_score_units(0, 1), None);
}

#[test]
fn a_handled_request_id_stays_refused_after_later_moves() {
    let mut host = fresh_host();
    host.set_board(
        vec![vec![2], vec![2], vec![0, 1, 3], vec![2]],
        vec![
            CellMetadataEntry::new(false, false, 1),
            CellMetadataEntry::new(false, false, 1),
            CellMetadataEntry::new(false, true, 0),
            CellMetadataEntry::new(false, false, 1),
        ],
        1,
    );
    assert!(host.apply("p", &Request { id: 1, index: 0 }, true));
    assert!(host.request(1, true).is_some());
    assert!(host.apply("q", &Request { id: 1, index: 3 }, true));
    let revision = host.revision;
    let score = host.score;
    let explored: Vec<bool> = host.metadata.iter().map(|e| e.is_explored).collect();
    assert!(!host.apply("p", &Request { id: 1, index: 1 }, true));
    assert!(!host.apply("p", &Request { id: 1, index: 1 }, false));
    assert_eq!(host.revision, revision);
    assert_eq!(host.score, score);
    assert_eq!(host.metadata.iter().map(|e| e.is_explored).collect::<Vec<_>>(), explored);
    assert!(!explored[1]);
}
