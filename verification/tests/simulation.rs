use std::collections::HashSet;

use lotto_sim::config::{GameConfig, PrizeRule};
use lotto_sim::draw::{generate_draw_numbers, generate_draw_with_supps};
use lotto_sim::prize::{calculate_prize, score_ticket_lines};

#[test]
fn draw_generates_expected_length() {
    let pool_max = 45;
    let draw_count = 6;
    let draw = generate_draw_numbers(pool_max, draw_count);

    assert_eq!(draw.len(), draw_count as usize);
}

#[test]
fn draw_numbers_are_unique() {
    let pool_max = 45;
    let draw_count = 6;
    let draw = generate_draw_numbers(pool_max, draw_count);

    let unique: HashSet<_> = draw.iter().copied().collect();
    assert_eq!(unique.len(), draw_count as usize);
}

#[test]
fn draw_with_supps_generates_unique_numbers() {
    let pool_max = 45;
    let draw_count = 6;
    let supps = 2;
    let (main, supp) = generate_draw_with_supps(pool_max, draw_count, supps);

    assert_eq!(main.len(), draw_count as usize);
    assert_eq!(supp.len(), supps as usize);
    assert!(main.iter().all(|&n| n >= 1 && n <= pool_max));
    assert!(supp.iter().all(|&n| n >= 1 && n <= pool_max));

    let combined: HashSet<_> = main.iter().chain(supp.iter()).copied().collect();
    assert_eq!(combined.len(), (draw_count + supps) as usize);
}

#[test]
fn calculate_prize_respects_supps() {
    let active_cfg = GameConfig {
        pool_max: 45,
        draw_count: 6,
        supps: 2,
        has_powerball: false,
        cost_per_game: 1,
        powerball_max: Some(20),
        prizes: vec![
            PrizeRule { matches: 6, pb: false, supps: 0, amount: 5_000_000 },
            PrizeRule { matches: 5, pb: false, supps: 1, amount: 12_000 },
            PrizeRule { matches: 5, pb: false, supps: 0, amount: 1_000 },
        ],
    };

    let user_nums = vec![1, 2, 3, 4, 5, 6];
    let draw_nums = vec![1, 2, 3, 4, 5, 7];
    let draw_supps = vec![8, 9];

    let (prize_without_supp, _) = calculate_prize(&active_cfg, &user_nums, &draw_nums, &draw_supps, None, None);
    assert_eq!(prize_without_supp, 1_000);

    let draw_supps_match = vec![6, 8];
    let (prize_with_supp, _) = calculate_prize(&active_cfg, &user_nums, &draw_nums, &draw_supps_match, None, None);
    assert_eq!(prize_with_supp, 12_000);
}

#[test]
fn powerhit_system_expands_all_lines() {
    let active_cfg = GameConfig {
        pool_max: 10,
        draw_count: 2,
        supps: 0,
        has_powerball: true,
        cost_per_game: 1,
        powerball_max: Some(3),
        prizes: vec![
            PrizeRule { matches: 2, pb: true, supps: 0, amount: 100 },
            PrizeRule { matches: 2, pb: false, supps: 0, amount: 50 },
            PrizeRule { matches: 1, pb: true, supps: 0, amount: 10 },
        ],
    };

    let mut division_wins = vec![0u64; active_cfg.prizes.len()];
    let (total_prize, has_div1) = score_ticket_lines(
        &active_cfg,
        &[1, 2, 3],
        None,
        true,
        &[1, 2],
        &[],
        Some(1),
        &mut division_wins,
    );

    assert!(has_div1, "PowerHit should include at least one division 1 win");
    assert_eq!(total_prize, 220);
    assert_eq!(division_wins[0], 1);
    assert_eq!(division_wins[1], 2);
    assert_eq!(division_wins[2], 2);
}

#[test]
fn draw_numbers_are_in_range() {
    let pool_max = 49;
    let draw_count = 7;
    let draw = generate_draw_numbers(pool_max, draw_count);

    assert!(draw.iter().all(|&num| num >= 1 && num <= pool_max));
}
