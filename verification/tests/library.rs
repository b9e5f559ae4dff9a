use lotto_sim::app_state::{find_game, frequency_variance, ticket_ready, LotteryApp};
use lotto_sim::binomial::{checked_combinations, combinations};
use lotto_sim::config::{AppConfig, GameConfig, GeneralConfig, PrizeRule};
use lotto_sim::draw::{powerball_from, random_draw, random_powerball, Draw};
use lotto_sim::format::{format_currency, format_with_separators};
use lotto_sim::prize::{calculate_prize, count_match_distribution, prize_for_counts, score_ticket_lines};
use lotto_sim::simulation::{
    cost_per_draw, new_run_stats, play_batch_draw, play_live_draw, run_until_stop, sample_frequencies,
    tally_draw, total_games, try_total_games, DrawOutcome, FrequencySample, SimStats,
};
use lotto_sim::summary::{sort_ascending, BatchResult};

fn saturday() -> GameConfig {
    GameConfig {
        pool_max: 45,
        draw_count: 6,
        cost_per_game: 1_000,
        has_powerball: false,
        supps: 2,
        powerball_max: None,
        prizes: vec![
            PrizeRule { matches: 6, pb: false, supps: 0, amount: 5_000_000 },
            PrizeRule { matches: 5, pb: false, supps: 1, amount: 12_000 },
            PrizeRule { matches: 5, pb: false, supps: 0, amount: 1_000 },
        ],
    }
}

fn powerball() -> GameConfig {
    GameConfig {
        pool_max: 35,
        draw_count: 7,
        cost_per_game: 1_575,
        has_powerball: true,
        supps: 0,
        powerball_max: Some(20),
        prizes: vec![
            PrizeRule { matches: 7, pb: true, supps: 0, amount: 50_000_000 },
            PrizeRule { matches: 7, pb: false, supps: 0, amount: 210_000 },
            PrizeRule { matches: 2, pb: true, supps: 0, amount: 10 },
        ],
    }
}

fn empty_stats(balance: u128, divisions: usize) -> SimStats {
    SimStats {
        balance,
        total_draws: 0,
        total_won: 0,
        division_wins: vec![0; divisions],
        history: vec![],
        number_frequency: vec![0; 46],
        pb_frequency: vec![0; 21],
    }
}

#[test]
fn combinations_known_values() {
    assert_eq!(combinations(45, 6), 8_145_060);
    assert_eq!(combinations(10, 0), 1);
    assert_eq!(combinations(10, 10), 1);
    assert_eq!(combinations(5, 7), 0);
    assert_eq!(combinations(20, 17), combinations(20, 3));
    assert_eq!(combinations(20, 3), 1_140);
    assert_eq!(combinations(0, 0), 1);
}

#[test]
fn combinations_large_result_fits() {
    assert_eq!(combinations(67, 33), 14_226_520_737_620_288_370);
    assert_eq!(combinations(64, 32), 1_832_624_140_942_590_534);
}

#[test]
fn separators_group_thousands() {
    assert_eq!(format_with_separators(0), "0");
    assert_eq!(format_with_separators(999), "999");
    assert_eq!(format_with_separators(1000), "1,000");
    assert_eq!(format_with_separators(1_000_000), "1,000,000");
    assert_eq!(format_with_separators(1234567), "1,234,567");
    assert_eq!(format_with_separators(u64::MAX), "18,446,744,073,709,551,615");
}

#[test]
fn separators_strip_back_to_digits() {
    for n in [0u64, 7, 42, 1000, 123_456_789, u64::MAX] {
        let stripped: String = format_with_separators(n).chars().filter(|&c| c != ',').collect();
        assert_eq!(stripped.parse::<u64>().unwrap(), n);
    }
}

#[test]
fn currency_has_sign_and_dollar() {
    assert_eq!(format_currency(false, 1234), "$1,234");
    assert_eq!(format_currency(true, 5), "-$5");
    assert_eq!(format_currency(false, 0), "$0");
    assert_eq!(format_currency(true, 1_000_000), "-$1,000,000");
}

#[test]
fn first_matching_division_pays() {
    let mut cfg = saturday();
    cfg.prizes.push(PrizeRule { matches: 6, pb: false, supps: 0, amount: 1 });
    assert_eq!(prize_for_counts(&cfg, 6, 0, false), (5_000_000, Some(0)));
    assert_eq!(prize_for_counts(&cfg, 5, 1, true), (12_000, Some(1)));
    assert_eq!(prize_for_counts(&cfg, 4, 0, false), (0, None));
}

#[test]
fn powerball_must_match_in_powerball_games() {
    let cfg = powerball();
    assert_eq!(prize_for_counts(&cfg, 7, 0, true), (50_000_000, Some(0)));
    assert_eq!(prize_for_counts(&cfg, 7, 0, false), (210_000, Some(1)));
    assert_eq!(prize_for_counts(&cfg, 2, 0, false), (0, None));
}

#[test]
fn distribution_counts_every_line_once() {
    let mut cfg = saturday();
    cfg.draw_count = 3;
    let dist = count_match_distribution(&cfg, &[1, 2, 3, 4, 5, 6], &[1, 2, 3], &[4]);
    let total: u64 = dist.iter().map(|e| e.2).sum();
    assert_eq!(total, combinations(6, 3));
    // x = 3 main matches, y = 1 supplementary, z = 2 others
    assert_eq!(dist[0], (0, 1, 1));
    assert!(dist.contains(&(3, 0, 1)));
    assert!(dist.contains(&(2, 1, 3)));
    assert!(dist.iter().all(|e| e.2 > 0));
}

#[test]
fn plain_ticket_scores_one_line() {
    let cfg = saturday();
    let mut wins = vec![0u64; 3];
    let (prize, div1) = score_ticket_lines(&cfg, &[1, 2, 3, 4, 5, 6], None, false, &[1, 2, 3, 4, 5, 6], &[7, 8], None, &mut wins);
    assert_eq!(prize, 5_000_000);
    assert!(div1);
    assert_eq!(wins, vec![1, 0, 0]);
}

#[test]
fn system_ticket_counts_supplementary_lines() {
    let cfg = saturday();
    let mut wins = vec![0u64; 3];
    // 7 numbers: 5 main matches, 1 supplementary, 1 other.
    let (prize, div1) = score_ticket_lines(&cfg, &[1, 2, 3, 4, 5, 9, 40], None, false, &[1, 2, 3, 4, 5, 6], &[9, 10], None, &mut wins);
    // Lines of 6: {5 main + supp} wins div 2 once, {5 main + other} div 3 once.
    assert_eq!(wins, vec![0, 1, 1]);
    assert_eq!(prize, 13_000);
    assert!(!div1);
}

#[test]
fn chosen_powerball_decides_non_powerhit_lines() {
    let cfg = powerball();
    let mut wins = vec![0u64; 3];
    let nums = [1, 2, 3, 4, 5, 6, 7];
    let (prize, div1) = score_ticket_lines(&cfg, &nums, Some(3), false, &nums, &[], Some(4), &mut wins);
    assert_eq!(prize, 210_000);
    assert!(!div1);
    assert_eq!(wins, vec![0, 1, 0]);
}

#[test]
fn ticket_cost_counts_system_and_powerhit_lines() {
    let cfg = powerball();
    let tickets = vec![
        ((1..=8).collect::<Vec<u32>>(), None, false),
        ((1..=7).collect::<Vec<u32>>(), None, true),
    ];
    assert_eq!(total_games(&cfg, &tickets), 8 + 20);
    assert_eq!(cost_per_draw(&cfg, &tickets), 28 * 1_575);
}

#[test]
fn bankrupt_draw_changes_nothing() {
    let cfg = saturday();
    let tickets = vec![(vec![1, 2, 3, 4, 5, 6], None, false)];
    let mut stats = empty_stats(999, 3);
    let draw = Draw { numbers: vec![1, 2, 3, 4, 5, 6], supps: vec![7, 8], powerball: None };
    assert_eq!(play_batch_draw(&mut stats, &cfg, &tickets, 1_000, &draw), DrawOutcome::Bankrupt);
    assert_eq!(stats.balance, 999);
    assert_eq!(stats.total_draws, 0);
}

#[test]
fn played_draw_pays_cost_and_winnings() {
    let cfg = saturday();
    let tickets = vec![(vec![1, 2, 3, 4, 5, 9], None, false)];
    let mut stats = empty_stats(5_000, 3);
    let draw = Draw { numbers: vec![1, 2, 3, 4, 5, 6], supps: vec![9, 8], powerball: None };
    assert_eq!(play_batch_draw(&mut stats, &cfg, &tickets, 1_000, &draw), DrawOutcome::Continue);
    assert_eq!(stats.balance, 5_000 - 1_000 + 12_000);
    assert_eq!(stats.total_won, 12_000);
    assert_eq!(stats.total_draws, 1);
    assert_eq!(stats.division_wins, vec![0, 1, 0]);
    // The books balance: balance + draws * cost == start + winnings.
    assert_eq!(stats.balance + 1_000, 5_000 + stats.total_won);
}


#[test]
fn repeated_entry_costs_and_wins_twice() {
    let cfg = saturday();
    let entry = (vec![1, 2, 3, 4, 5, 9], None, false);
    let once = vec![entry.clone()];
    let twice = vec![entry.clone(), entry];
    assert_eq!(cost_per_draw(&cfg, &once), 1_000);
    assert_eq!(cost_per_draw(&cfg, &twice), 2_000);
    let draw = Draw { numbers: vec![1, 2, 3, 4, 5, 6], supps: vec![9, 8], powerball: None };
    let mut stats = empty_stats(5_000, 3);
    assert_eq!(play_batch_draw(&mut stats, &cfg, &twice, 2_000, &draw), DrawOutcome::Continue);
    assert_eq!(stats.total_won, 24_000);
    assert_eq!(stats.division_wins, vec![0, 2, 0]);
}
#[test]
fn division_one_stops_the_run() {
    let cfg = saturday();
    let tickets = vec![(vec![1, 2, 3, 4, 5, 6], None, false)];
    let mut stats = empty_stats(1_000, 3);
    let draw = Draw { numbers: vec![6, 5, 4, 3, 2, 1], supps: vec![9, 8], powerball: None };
    assert_eq!(play_live_draw(&mut stats, &cfg, &tickets, 1_000, &draw), DrawOutcome::Division1);
    assert_eq!(stats.history, vec![(1, 5_000_000)]);
    assert_eq!(stats.number_frequency[1], 1);
    assert_eq!(stats.number_frequency[9], 1);
    assert_eq!(stats.number_frequency[10], 0);
}

#[test]
fn live_draw_samples_history_every_thousand() {
    let cfg = powerball();
    let tickets = vec![(vec![1, 2, 3, 4, 5, 6, 7], Some(1), false)];
    let mut stats = empty_stats(10_000, 3);
    stats.total_draws = 999;
    let draw = Draw { numbers: vec![20, 21, 22, 23, 24, 25, 26], supps: vec![], powerball: Some(5) };
    assert_eq!(play_live_draw(&mut stats, &cfg, &tickets, 1_575, &draw), DrawOutcome::Continue);
    assert_eq!(stats.history, vec![(1000, 10_000 - 1_575)]);
    assert_eq!(stats.pb_frequency[5], 1);
}

#[test]
fn fresh_run_stats_fit_the_game() {
    let stats = new_run_stats(&powerball(), 100_000);
    assert_eq!(stats.balance, 100_000);
    assert_eq!(stats.division_wins.len(), 3);
    assert_eq!(stats.number_frequency.len(), 36);
    assert_eq!(stats.pb_frequency.len(), 21);
}

#[test]
fn random_draws_are_valid() {
    let cfg = powerball();
    for _ in 0..50 {
        let d = random_draw(&cfg);
        assert_eq!(d.numbers.len(), 7);
        assert!(d.supps.is_empty());
        let pb = d.powerball.unwrap();
        assert!((1..=20).contains(&pb));
    }
    for _ in 0..50 {
        let pb = random_powerball(3);
        assert!((1..=3).contains(&pb));
    }
}

#[test]
fn sampling_counts_every_drawn_number() {
    let cfg = powerball();
    let sample = sample_frequencies(&cfg, 200);
    assert_eq!(sample.numbers.len(), 36);
    assert_eq!(sample.numbers[0], 0);
    assert_eq!(sample.numbers.iter().sum::<u64>(), 200 * 7);
    assert_eq!(sample.powerballs.iter().sum::<u64>(), 200);
    let sat = sample_frequencies(&saturday(), 10);
    assert_eq!(sat.numbers.iter().sum::<u64>(), 10 * 8);
    assert_eq!(sat.powerballs, vec![0]);
}

#[test]
fn merging_adds_and_grows() {
    let mut stats = empty_stats(0, 0);
    stats.number_frequency = vec![1, 2];
    stats.pb_frequency = vec![0, 5, 5];
    let sample = FrequencySample { numbers: vec![0, 1, 4], powerballs: vec![0, 1] };
    stats.merge_frequencies(&sample);
    assert_eq!(stats.number_frequency, vec![1, 3, 4]);
    assert_eq!(stats.pb_frequency, vec![0, 6, 5]);
}

#[test]
fn summary_of_runs() {
    let mk = |balance: u128, draws: u64, won: u128, wins: Vec<u64>| SimStats {
        balance,
        total_draws: draws,
        total_won: won,
        division_wins: wins,
        history: vec![],
        number_frequency: vec![],
        pb_frequency: vec![],
    };
    let batch = BatchResult {
        results: vec![mk(30, 10, 5, vec![1, 0]), mk(10, 20, 0, vec![0, 2]), mk(20, 30, 7, vec![1, 1])],
    };
    let s = batch.summary().unwrap();
    assert_eq!(s.runs, 3);
    assert_eq!(s.median_balance, 20);
    assert_eq!(s.min_balance, 10);
    assert_eq!(s.max_balance, 30);
    assert_eq!(s.total_balance, 60);
    assert_eq!(s.total_draws, 60);
    assert_eq!(s.total_won, 12);
    assert_eq!(s.division_totals, vec![2, 3]);
    assert!(BatchResult { results: vec![] }.summary().is_none());
    assert_eq!(sort_ascending(&vec![3, 1, 2, 1]), vec![1, 1, 2, 3]);
}

fn app_config() -> AppConfig {
    AppConfig {
        general: GeneralConfig { starting_balance: 1_000_000 },
        games: vec![
            ("saturday".to_string(), saturday()),
            ("powerball".to_string(), powerball()),
        ],
    }
}

#[test]
fn game_list_is_alphabetical() {
    let app = LotteryApp::new(app_config());
    assert_eq!(app.game_keys, vec!["powerball".to_string(), "saturday".to_string()]);
    assert_eq!(app.active_game_name(), "powerball");
    assert_eq!(app.active_config().pool_max, 35);
    assert_eq!(app.auto_pick_count, 7);
    assert_eq!(app.custom_starting_balance, 1_000_000);
}

#[test]
fn stats_fit_every_game() {
    let stats = LotteryApp::build_stats(&app_config());
    assert_eq!(stats.number_frequency.len(), 46);
    assert_eq!(stats.pb_frequency.len(), 21);
    assert_eq!(stats.division_wins.len(), 3);
    assert_eq!(stats.balance, 1_000_000);
}

#[test]
fn reload_keeps_the_selected_game() {
    let mut app = LotteryApp::new(app_config());
    app.active_game_idx = 1;
    app.current_selected = vec![1, 2, 3];
    let mut config = app_config();
    config.games.push(("ozlotto".to_string(), saturday()));
    let stats = app.reload_config(config);
    assert_eq!(app.active_game_name(), "saturday");
    assert_eq!(app.active_game_idx, 2);
    assert!(app.current_selected.is_empty());
    assert_eq!(stats.total_draws, 0);
    let mut only_oz = app_config();
    only_oz.games = vec![("ozlotto".to_string(), saturday())];
    app.reload_config(only_oz);
    assert_eq!(app.active_game_idx, 0);
}

#[test]
fn hot_numbers_take_most_drawn() {
    let mut app = LotteryApp::new(app_config());
    app.active_game_idx = 1; // saturday: 45 numbers
    app.auto_pick_count = 3;
    let mut stats = LotteryApp::build_stats(&app_config());
    stats.number_frequency[10] = 9;
    stats.number_frequency[4] = 8;
    stats.number_frequency[30] = 7;
    stats.number_frequency[31] = 1;
    app.select_hot_numbers(&stats);
    assert_eq!(app.current_selected, vec![4, 10, 30]);
}

#[test]
fn hot_numbers_break_ties_at_random_within_the_group() {
    let mut app = LotteryApp::new(app_config());
    app.active_game_idx = 1;
    app.auto_pick_count = 4;
    let mut stats = LotteryApp::build_stats(&app_config());
    stats.number_frequency[10] = 9;
    for n in [1, 2, 3, 4, 5] {
        stats.number_frequency[n] = 5;
    }
    app.select_hot_numbers(&stats);
    assert_eq!(app.current_selected.len(), 4);
    assert!(app.current_selected.contains(&10));
    assert!(app.current_selected.iter().all(|n| [1, 2, 3, 4, 5, 10].contains(n)));
    assert!(app.current_selected.windows(2).all(|w| w[0] < w[1]));
}

#[test]
fn hot_powerball_is_lowest_of_most_drawn() {
    let mut app = LotteryApp::new(app_config());
    app.auto_pick_count = 0;
    app.current_selected = vec![7];
    let mut stats = LotteryApp::build_stats(&app_config());
    stats.pb_frequency[12] = 4;
    stats.pb_frequency[3] = 4;
    app.select_hot_numbers(&stats);
    assert_eq!(app.current_pb, Some(3));
    assert_eq!(app.current_selected, vec![7]);
    let mut cold = LotteryApp::new(app_config());
    cold.select_hot_numbers(&LotteryApp::build_stats(&app_config()));
    assert_eq!(cold.current_pb, None);
    // With no history at all every number ties: the pick is still full.
    assert_eq!(cold.current_selected.len(), 7);
}

#[test]
fn checked_combinations_reports_overflow() {
    assert_eq!(checked_combinations(45, 6), Some(8_145_060));
    assert_eq!(checked_combinations(3, 5), Some(0));
    assert_eq!(checked_combinations(67, 33), Some(14_226_520_737_620_288_370));
    assert_eq!(checked_combinations(68, 34), None);
}

#[test]
fn try_total_games_detects_overflow() {
    let cfg = powerball();
    let tickets = vec![((1..=8).collect::<Vec<u32>>(), None, true)];
    assert_eq!(try_total_games(&cfg, &tickets), Some(160));
    let mut wide = saturday();
    wide.draw_count = 34;
    let huge = vec![((1..=68).collect::<Vec<u32>>(), None, false)];
    assert_eq!(try_total_games(&wide, &huge), None);
}

#[test]
fn ticket_readiness() {
    let pb = powerball();
    let seven: Vec<u32> = (1..=7).collect();
    assert!(!ticket_ready(&pb, &seven, None, false));
    assert!(ticket_ready(&pb, &seven, Some(4), false));
    assert!(ticket_ready(&pb, &seven, None, true));
    assert!(!ticket_ready(&pb, &vec![1, 2], Some(4), false));
    assert!(ticket_ready(&saturday(), &vec![1, 2, 3, 4, 5, 6], None, false));
}

#[test]
fn variance_is_above_the_least_drawn() {
    assert_eq!(frequency_variance(&vec![100, 5, 7, 5, 9], 4), vec![0, 2, 0, 4]);
    assert_eq!(frequency_variance(&vec![0, 3], 3), vec![3, 0, 0]);
    assert!(frequency_variance(&vec![], 0).is_empty());
}

#[test]
fn toggling_numbers_keeps_order_and_limit() {
    let mut app = LotteryApp::new(app_config());
    app.toggle_current_number(5);
    app.toggle_current_number(2);
    app.toggle_current_number(9);
    assert_eq!(app.current_selected, vec![2, 5, 9]);
    app.toggle_current_number(5);
    assert_eq!(app.current_selected, vec![2, 9]);
    app.current_selected = (1..=20).collect();
    app.toggle_current_number(30);
    assert_eq!(app.current_selected.len(), 20);
    app.current_pb = Some(3);
    app.add_current_ticket();
    assert_eq!(app.selected_numbers.len(), 1);
    assert_eq!(app.selected_powerball, vec![Some(3)]);
    assert_eq!(app.is_powerhit, vec![false]);
    assert!(app.current_selected.is_empty());
}

#[test]
fn powerball_from_random_value() {
    assert_eq!(powerball_from(0, 20), 1);
    assert_eq!(powerball_from(19, 20), 20);
    assert_eq!(powerball_from(20, 20), 1);
    assert_eq!(powerball_from(u32::MAX, 20), u32::MAX % 20 + 1);
    assert_eq!(powerball_from(41, 20), 2);
}

#[test]
fn powerhit_miss_line_division_one_is_reported() {
    let cfg = GameConfig {
        pool_max: 10,
        draw_count: 1,
        cost_per_game: 1,
        has_powerball: true,
        supps: 0,
        powerball_max: Some(2),
        prizes: vec![PrizeRule { matches: 1, pb: false, supps: 0, amount: 100 }],
    };
    let mut wins = vec![0u64];
    let (prize, div1) = score_ticket_lines(&cfg, &[1], None, true, &[1], &[], Some(1), &mut wins);
    assert!(div1);
    assert_eq!(prize, 100);
    assert_eq!(wins, vec![1]);
}

#[test]
fn run_stops_at_once_when_bankroll_is_short() {
    let cfg = saturday();
    let tickets = vec![(vec![1, 2, 3, 4, 5, 6], None, false)];
    let (stats, outcome) = run_until_stop(&cfg, &tickets, 1_000, 999);
    assert_eq!(outcome, DrawOutcome::Bankrupt);
    assert_eq!(stats.total_draws, 0);
    assert_eq!(stats.balance, 999);
    assert!(stats.history.is_empty());
}

#[test]
fn run_stops_on_division_one() {
    let cfg = GameConfig {
        pool_max: 1,
        draw_count: 1,
        cost_per_game: 5,
        has_powerball: false,
        supps: 0,
        powerball_max: None,
        prizes: vec![PrizeRule { matches: 1, pb: false, supps: 0, amount: 700 }],
    };
    let tickets = vec![(vec![1], None, false)];
    let (stats, outcome) = run_until_stop(&cfg, &tickets, 5, 10);
    assert_eq!(outcome, DrawOutcome::Division1);
    assert_eq!(stats.total_draws, 1);
    assert_eq!(stats.balance, 10 - 5 + 700);
    assert_eq!(stats.total_won, 700);
    assert_eq!(stats.division_wins, vec![1]);
}

#[test]
fn tally_counts_each_drawn_number_at_its_own_index() {
    let mut freq = vec![0u64, 4, 0, 2, 0, 0];
    tally_draw(&mut freq, &[5, 1, 3]);
    assert_eq!(freq, vec![0, 5, 0, 3, 0, 1]);
}

#[test]
fn sample_counts_the_whole_pool_when_every_number_is_drawn() {
    let cfg = GameConfig {
        pool_max: 4,
        draw_count: 3,
        cost_per_game: 1,
        has_powerball: true,
        supps: 1,
        powerball_max: Some(1),
        prizes: vec![],
    };
    let sample = sample_frequencies(&cfg, 7);
    assert_eq!(sample.numbers, vec![0, 7, 7, 7, 7]);
    assert_eq!(sample.powerballs, vec![0, 7]);
}

#[test]
fn find_game_by_name() {
    let config = app_config();
    let first = config.games[0].0.clone();
    assert_eq!(find_game(&config, &first), Some(0));
    assert_eq!(find_game(&config, &"Missing".to_string()), None);
}

#[test]
fn one_line_ticket_scores_as_calculate_prize() {
    let cfg = saturday();
    let user = [1, 2, 3, 4, 5, 6];
    let draw = [1, 2, 3, 4, 5, 7];
    let supps = [6, 8];
    let (p, d) = calculate_prize(&cfg, &user, &draw, &supps, None, None);
    let mut wins = vec![0u64; 3];
    let (q, div1) = score_ticket_lines(&cfg, &user, None, false, &draw, &supps, None, &mut wins);
    assert_eq!((p as u128, d), (q, Some(1)));
    assert!(!div1);
    assert_eq!(wins, vec![0, 1, 0]);
}

#[test]
fn powerball_picks_do_not_matter_without_a_powerball() {
    let cfg = saturday();
    let user = [1, 2, 3, 4, 5, 6, 9];
    let mut w1 = vec![0u64; 3];
    let mut w2 = vec![0u64; 3];
    let r1 = score_ticket_lines(&cfg, &user, None, false, &[1, 2, 3, 4, 5, 6], &[9, 8], None, &mut w1);
    let r2 = score_ticket_lines(&cfg, &user, Some(4), true, &[1, 2, 3, 4, 5, 6], &[9, 8], Some(2), &mut w2);
    assert_eq!(r1, r2);
    assert_eq!(w1, w2);
    assert!(r1.1);
}

#[test]
fn sample_size_is_clamped() {
    assert_eq!(lotto_sim::app_state::clamp_sample_size(0), 1);
    assert_eq!(lotto_sim::app_state::clamp_sample_size(5_000), 5_000);
    assert_eq!(lotto_sim::app_state::clamp_sample_size(2_000_000_000), 1_000_000_000);
}
