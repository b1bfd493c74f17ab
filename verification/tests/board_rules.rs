use avoidant::bitmap::{decode_bitmap, encode_bitmap, BitmapError, MAX_BITMAP_LEN};
use avoidant::board::{reveal_set, CellMetadataEntry};
use avoidant::score::{
    completion_bonus_units, max_score_units, safe_reward_units, streak_multiplier_tenths,
    void_penalty_units, ScoreState,
};
use avoidant::voids::{board_metadata, compute_void_mask, count_voids, mask_from_order};

#[test]
fn opening_is_safe_with_exact_void_count_and_repeatable_layout() {
    for count in [1usize, 4, 80, 160, 320] {
        for safe in 0..count {
            for fraction in [0.0f64, 0.15625, 0.999, 1.0] {
                let void_count = if fraction <= 0.0 {
                    0
                } else {
                    ((count as f64) * fraction.clamp(0.0, 1.0)).floor() as usize
                };
                let mask = compute_void_mask(count, 42, void_count, safe);
                assert!(!mask[safe]);
                assert_eq!(
                    mask.iter().filter(|&&v| v).count(),
                    ((count as f64 * fraction).floor() as usize).min(count - 1)
                );
                assert_eq!(mask, compute_void_mask(count, 42, void_count, safe));
            }
        }
    }
}

#[test]
fn void_layout_depends_on_seed() {
    let a = compute_void_mask(320, 1, 50, 0);
    let b = compute_void_mask(320, 2, 50, 0);
    assert_eq!(count_voids(&a), 50);
    assert_eq!(count_voids(&b), 50);
    assert_ne!(a, b);
    let none = compute_void_mask(10, 1, 0, 3);
    assert_eq!(none, vec![false; 10]);
}

#[test]
fn board_metadata_counts_void_neighbors() {
    let neighbors = vec![vec![1, 2], vec![0, 2], vec![0, 1, 3], vec![2, 9]];
    let mask = vec![false, true, false, true];
    let meta = board_metadata(&neighbors, &mask);
    assert_eq!(meta.len(), 4);
    assert_eq!(meta[0], CellMetadataEntry::new(false, false, 1));
    assert_eq!(meta[1], CellMetadataEntry::new(false, true, 0));
    assert_eq!(meta[2], CellMetadataEntry::new(false, false, 2));
    assert_eq!(meta[3], CellMetadataEntry::new(false, true, 0));
}

fn grid_neighbors() -> Vec<Vec<u32>> {
    // A 3 x 3 grid, cells numbered row by row.
    let mut out = Vec::new();
    for r in 0..3i32 {
        for c in 0..3i32 {
            let mut n = Vec::new();
            for (dr, dc) in [(-1, 0), (1, 0), (0, -1), (0, 1)] {
                let (rr, cc) = (r + dr, c + dc);
                if (0..3).contains(&rr) && (0..3).contains(&cc) {
                    n.push((rr * 3 + cc) as u32);
                }
            }
            out.push(n);
        }
    }
    out
}

fn grid_metadata(void: Option<usize>, neighbors: &[Vec<u32>]) -> Vec<CellMetadataEntry> {
    (0..neighbors.len())
        .map(|i| {
            let count = neighbors[i].iter().filter(|&&n| Some(n as usize) == void).count() as u8;
            CellMetadataEntry::new(false, Some(i) == void, if Some(i) == void { 0 } else { count })
        })
        .collect()
}

#[test]
fn reveal_floods_blank_cells_and_stops_at_numbers() {
    let nb = grid_neighbors();
    let open = grid_metadata(None, &nb);
    assert_eq!(reveal_set(9, 0, &open, &nb), vec![0, 3, 1, 6, 4, 2, 7, 5, 8]);
    assert!(reveal_set(9, 9, &open, &nb).is_empty());
    let mut busy = open.clone();
    busy.iter_mut().for_each(|e| e.set_revealing(true));
    assert!(reveal_set(9, 0, &busy, &nb).is_empty());
    // A void in the corner: the void alone, a number alone, a blank floods.
    let mined = grid_metadata(Some(0), &nb);
    assert_eq!(reveal_set(9, 0, &mined, &nb), vec![0]);
    assert_eq!(reveal_set(9, 1, &mined, &nb), vec![1]);
    let flood = reveal_set(9, 8, &mined, &nb);
    assert!(!flood.contains(&0));
    assert_eq!(flood, vec![8, 5, 7, 2, 4, 6, 1, 3]);
}

#[test]
fn neighbors_past_the_board_are_ignored() {
    let nb = vec![vec![1, 7], vec![0]];
    let meta = vec![CellMetadataEntry::new(false, false, 0); 2];
    assert_eq!(reveal_set(2, 0, &meta, &nb), vec![0, 1]);
}

#[test]
fn scoring_rewards_streaks_and_penalizes_voids() {
    let mut s = ScoreState::default();
    s.reset_for_map(10, 2);
    assert_eq!(s.score_denominator(), 40);
    s.explore(false);
    assert_eq!(s.score_units, 40);
    s.explore(false);
    assert_eq!(s.score_units, 40 + 44);
    s.explore(true);
    assert_eq!(s.score_units, 84 - 160);
    assert_eq!(s.streak, 0);
    assert_eq!(s.best_streak, 2);
    assert!(!s.completed);
    for _ in 0..6 {
        s.explore(false);
    }
    assert!(s.completed);
    assert_eq!(s.safe_explored, 8);
    assert_eq!(
        s.score_units,
        84 - 160 + 2 * 2 * (10 + 11 + 12 + 13 + 14 + 15) + completion_bonus_units(8, 2)
    );
}

#[test]
fn score_formulas_have_exact_values() {
    assert_eq!(streak_multiplier_tenths(0), 10);
    assert_eq!(streak_multiplier_tenths(3), 13);
    assert_eq!(streak_multiplier_tenths(50), 20);
    assert_eq!(safe_reward_units(3, 4), 2 * 13 * 4);
    assert_eq!(void_penalty_units(10, 2), 160);
    assert_eq!(void_penalty_units(10, 0), 0);
    assert_eq!(completion_bonus_units(8, 2), 5 * 8 * 2);
    assert_eq!(max_score_units(0, 3), None);
    // Four safe cells without voids: 1.0 + 1.1 + 1.2 + 1.3 points plus a 1.0 bonus.
    assert_eq!(max_score_units(4, 0), Some(112));
}

#[test]
fn a_random_first_click_is_worth_nothing_on_average() {
    for (total, voids) in [(10u32, 2u32), (80, 12), (320, 50), (5, 4)] {
        let safe = (total - voids) as i128;
        let expected =
            safe * safe_reward_units(0, voids) - (voids as i128) * void_penalty_units(total, voids);
        assert_eq!(expected, 0);
    }
}

#[test]
fn bitmap_encodes_four_cells_per_hex_digit() {
    let bits = vec![true, false, false, false, true];
    assert_eq!(encode_bitmap(&bits), "5:11");
    let bits = vec![false, true, true, true, true, true, false, true];
    assert_eq!(encode_bitmap(&bits), "8:eb");
    assert_eq!(encode_bitmap(&vec![]), "0:");
}

#[test]
fn bitmap_roundtrip_preserves_all_cells() {
    for count in [1usize, 80, 160, 320, 5000] {
        let bits: Vec<bool> = (0..count).map(|i| i % 3 == 0).collect();
        let text = encode_bitmap(&bits);
        assert!(text.len() < 3000);
        assert_eq!(text.len(), count.to_string().len() + 1 + (count + 3) / 4);
        assert_eq!(decode_bitmap(&text), Ok(bits));
    }
}

#[test]
fn bitmap_rejects_malformed_text() {
    assert_eq!(decode_bitmap("abc"), Err(BitmapError::MissingSeparator));
    assert_eq!(decode_bitmap("x:1"), Err(BitmapError::InvalidLength));
    assert_eq!(decode_bitmap(":1"), Err(BitmapError::InvalidLength));
    assert_eq!(decode_bitmap("5:1"), Err(BitmapError::LengthMismatch));
    let too_long = format!("{}:", MAX_BITMAP_LEN + 1);
    assert_eq!(decode_bitmap(&too_long), Err(BitmapError::LengthMismatch));
    assert_eq!(decode_bitmap("4:g"), Err(BitmapError::InvalidDigit));
    assert_eq!(decode_bitmap("+4:F"), Ok(vec![true; 4]));
    assert_eq!(decode_bitmap("3:7"), Ok(vec![true; 3]));
}

#[test]
fn the_first_shuffled_candidates_become_voids() {
    assert_eq!(mask_from_order(5, &vec![3, 1, 4], 2), vec![false, true, false, true, false]);
    assert_eq!(mask_from_order(5, &vec![3, 1, 4], 10), vec![false, true, false, true, true]);
    assert_eq!(mask_from_order(3, &vec![], 2), vec![false; 3]);
}

#[test]
fn metadata_flags_change_one_at_a_time() {
    let mut e = CellMetadataEntry::new(false, true, 3);
    e.set_revealing(true);
    assert!(e.is_revealing && !e.is_explored);
    e.mark_explored();
    assert_eq!(
        e,
        CellMetadataEntry { is_explored: true, is_void: true, void_neighbor_count: 3, is_revealing: true }
    );
}
