//! Playing a set of tickets draw by draw until bankruptcy or a Division 1 win,
//! and the statistics that are kept on the way.
use vstd::prelude::*;

use crate::binomial::{binomial, checked_combinations, combinations};
use crate::config::GameConfig;
use crate::draw::{random_draw, valid_draw, Draw};
use crate::prize::{
    add_wins, any_div1, capped, count_in, lemma_capped_add, lemma_every_line_counted, line_count, line_pb, pb_variants,
    plays_powerhit, rule_index, scorable, score_ticket_lines, ticket_distribution, total_value, wins_after,
};

verus! {

/// The running state of a simulation.
#[derive(Clone, Debug)]
pub struct SimStats {
    pub balance: u128,
    pub total_draws: u64,
    pub total_won: u128,
    pub division_wins: Vec<u64>,
    /// `(draws, balance)` samples of the bankroll.
    pub history: Vec<(u64, u128)>,
    /// How often each number was drawn (main and supplementary), by number.
    pub number_frequency: Vec<u64>,
    /// How often each Powerball was drawn, by number.
    pub pb_frequency: Vec<u64>,
}

// ---------------------------------------------------------------------------
// Tickets and their cost
// ---------------------------------------------------------------------------

/// The lines one ticket `(numbers, powerball, powerhit)` stands for.
pub open spec fn ticket_games(cfg: GameConfig, ticket: (Vec<u32>, Option<u32>, bool)) -> nat {
    binomial(ticket.0@.len(), cfg.draw_count as nat) * pb_variants(cfg, ticket.2)
}

/// The lines all the tickets stand for.
pub open spec fn games_total(cfg: GameConfig, tickets: Seq<(Vec<u32>, Option<u32>, bool)>) -> nat
    decreases tickets.len(),
{
    if tickets.len() == 0 {
        0
    } else {
        games_total(cfg, tickets.drop_last()) + ticket_games(cfg, tickets.last())
    }
}

/// The lines of each ticket, and of all of them, can be counted in a `u64`.
pub open spec fn tickets_countable(cfg: GameConfig, tickets: Seq<(Vec<u32>, Option<u32>, bool)>) -> bool {
    &&& games_total(cfg, tickets) <= u64::MAX
    &&& forall|i: int|
        0 <= i < tickets.len() ==> binomial((#[trigger] tickets[i]).0@.len(), cfg.draw_count as nat)
            <= u64::MAX
}

/// How many lines (games) the tickets stand for in one draw.
pub fn total_games(cfg: &GameConfig, tickets: &[(Vec<u32>, Option<u32>, bool)]) -> (res: u64)
    requires
        tickets_countable(*cfg, tickets@),
    ensures
        res == games_total(*cfg, tickets@),
{
    let mut sum: u64 = 0;
    let mut i: usize = 0;
    while i < tickets.len()
        invariant
            i <= tickets@.len(),
            tickets_countable(*cfg, tickets@),
            sum == games_total(*cfg, tickets@.take(i as int)),
        decreases tickets.len() - i,
    {
        let ghost t = tickets@[i as int];
        assert(tickets@.take(i + 1).drop_last() == tickets@.take(i as int));
        assert(tickets@.take(i + 1).last() == t);
        proof {
            lemma_games_total_prefix(*cfg, tickets@, i as int + 1);
        }
        let base = combinations(tickets[i].0.len() as u64, cfg.draw_count as u64);
        let multiplier: u64 = if tickets[i].2 && cfg.has_powerball {
            match cfg.powerball_max {
                Some(m) => m as u64,
                None => 1,
            }
        } else {
            1
        };
        assert(base * multiplier == ticket_games(*cfg, t));
        sum = sum + base * multiplier;
        i = i + 1;
    }
    assert(tickets@.take(tickets@.len() as int) == tickets@);
    sum
}

proof fn lemma_games_total_prefix(cfg: GameConfig, tickets: Seq<(Vec<u32>, Option<u32>, bool)>, n: int)
    requires
        0 <= n <= tickets.len(),
    ensures
        games_total(cfg, tickets.take(n)) <= games_total(cfg, tickets),
    decreases tickets.len(),
{
    if n < tickets.len() {
        assert(tickets.drop_last().take(n) == tickets.take(n));
        lemma_games_total_prefix(cfg, tickets.drop_last(), n);
    } else {
        assert(tickets.take(n) == tickets);
    }
}

/// How many lines the tickets stand for in one draw, or nothing when some
/// count does not fit in a `u64`.
pub fn try_total_games(cfg: &GameConfig, tickets: &[(Vec<u32>, Option<u32>, bool)]) -> (res: Option<u64>)
    ensures
        match res {
            Some(g) => tickets_countable(*cfg, tickets@) && g == games_total(*cfg, tickets@),
            None => !tickets_countable(*cfg, tickets@),
        },
{
    let mut sum: u64 = 0;
    let mut i: usize = 0;
    while i < tickets.len()
        invariant
            i <= tickets@.len(),
            sum == games_total(*cfg, tickets@.take(i as int)),
            forall|k: int| 0 <= k < i ==> binomial((#[trigger] tickets@[k]).0@.len(), cfg.draw_count as nat) <= u64::MAX,
        decreases tickets.len() - i,
    {
        let ghost t = tickets@[i as int];
        assert(tickets@.take(i + 1).drop_last() == tickets@.take(i as int));
        assert(tickets@.take(i + 1).last() == t);
        let base = match checked_combinations(tickets[i].0.len() as u64, cfg.draw_count as u64) {
            Some(b) => b,
            None => {
                return None;
            },
        };
        let multiplier: u64 = if tickets[i].2 && cfg.has_powerball {
            match cfg.powerball_max {
                Some(m) => m as u64,
                None => 1,
            }
        } else {
            1
        };
        assert(base * multiplier == ticket_games(*cfg, t));
        let games = match base.checked_mul(multiplier) {
            Some(g) => g,
            None => {
                proof {
                    lemma_games_total_prefix(*cfg, tickets@, i as int + 1);
                }
                return None;
            },
        };
        sum = match sum.checked_add(games) {
            Some(v) => v,
            None => {
                proof {
                    lemma_games_total_prefix(*cfg, tickets@, i as int + 1);
                }
                return None;
            },
        };
        i = i + 1;
    }
    assert(tickets@.take(tickets@.len() as int) == tickets@);
    Some(sum)
}

/// What one draw of the tickets costs.
pub fn cost_per_draw(cfg: &GameConfig, tickets: &[(Vec<u32>, Option<u32>, bool)]) -> (res: u128)
    requires
        tickets_countable(*cfg, tickets@),
    ensures
        res == games_total(*cfg, tickets@) * cfg.cost_per_game,
{
    let games = total_games(cfg, tickets);
    assert(games * cfg.cost_per_game <= u128::MAX) by (nonlinear_arith)
        requires
            games <= u64::MAX,
            cfg.cost_per_game <= u64::MAX,
    ;
    (games as u128) * (cfg.cost_per_game as u128)
}

// ---------------------------------------------------------------------------
// Scoring every ticket against a draw
// ---------------------------------------------------------------------------

/// What all the lines of `ticket` win in `draw`.
pub open spec fn ticket_value(cfg: GameConfig, ticket: (Vec<u32>, Option<u32>, bool), draw: Draw) -> nat {
    total_value(
        cfg,
        ticket.2,
        ticket.1 == draw.powerball,
        ticket_distribution(cfg, ticket.0@, draw.numbers@, draw.supps@),
    )
}

/// What all the tickets win in `draw`.
pub open spec fn tickets_value(cfg: GameConfig, tickets: Seq<(Vec<u32>, Option<u32>, bool)>, draw: Draw) -> nat
    decreases tickets.len(),
{
    if tickets.len() == 0 {
        0
    } else {
        tickets_value(cfg, tickets.drop_last(), draw) + ticket_value(cfg, tickets.last(), draw)
    }
}

/// Some line of some ticket wins Division 1 in `draw`.
pub open spec fn tickets_div1(cfg: GameConfig, tickets: Seq<(Vec<u32>, Option<u32>, bool)>, draw: Draw) -> bool {
    exists|i: int|
        0 <= i < tickets.len() && any_div1(
            cfg,
            (#[trigger] tickets[i]).2,
            tickets[i].1 == draw.powerball,
            ticket_distribution(cfg, tickets[i].0@, draw.numbers@, draw.supps@),
        )
}

/// The division tally after scoring all the tickets in `draw`.
pub open spec fn tickets_wins(
    cfg: GameConfig,
    tickets: Seq<(Vec<u32>, Option<u32>, bool)>,
    draw: Draw,
    wins: Seq<u64>,
) -> Seq<u64>
    decreases tickets.len(),
{
    if tickets.len() == 0 {
        wins
    } else {
        let t = tickets.last();
        wins_after(
            cfg,
            t.2,
            t.1 == draw.powerball,
            tickets_wins(cfg, tickets.drop_last(), draw, wins),
            ticket_distribution(cfg, t.0@, draw.numbers@, draw.supps@),
        )
    }
}

/// Scoring keeps the length of the division tally.
pub proof fn lemma_tally_len(
    cfg: GameConfig,
    tickets: Seq<(Vec<u32>, Option<u32>, bool)>,
    draw: Draw,
    wins: Seq<u64>,
)
    ensures
        tickets_wins(cfg, tickets, draw, wins).len() == wins.len(),
    decreases tickets.len(),
{
    if tickets.len() > 0 {
        lemma_tally_len(cfg, tickets.drop_last(), draw, wins);
        let t = tickets.last();
        crate::prize::lemma_wins_after_len(
            cfg,
            t.2,
            t.1 == draw.powerball,
            tickets_wins(cfg, tickets.drop_last(), draw, wins),
            ticket_distribution(cfg, t.0@, draw.numbers@, draw.supps@),
        );
    }
}

/// Entries are played independently, so the same numbers may be entered more
/// than once: the lines of two lists of entries played together are those of
/// each list, and so are their winnings; the division tally takes the wins
/// of the first list and then those of the second, and Division 1 is won
/// when either list wins it.
pub proof fn lemma_entries_add_up(
    cfg: GameConfig,
    a: Seq<(Vec<u32>, Option<u32>, bool)>,
    b: Seq<(Vec<u32>, Option<u32>, bool)>,
    draw: Draw,
    wins: Seq<u64>,
)
    ensures
        games_total(cfg, a + b) == games_total(cfg, a) + games_total(cfg, b),
        tickets_value(cfg, a + b, draw) == tickets_value(cfg, a, draw) + tickets_value(cfg, b, draw),
        tickets_wins(cfg, a + b, draw, wins) == tickets_wins(cfg, b, draw, tickets_wins(cfg, a, draw, wins)),
        tickets_div1(cfg, a + b, draw) == (tickets_div1(cfg, a, draw) || tickets_div1(cfg, b, draw)),
    decreases b.len(),
{
    if b.len() == 0 {
        assert(a + b == a);
    } else {
        lemma_entries_add_up(cfg, a, b.drop_last(), draw, wins);
        assert((a + b).drop_last() == a + b.drop_last());
        assert((a + b).last() == b.last());
    }
    let ab = a + b;
    if tickets_div1(cfg, ab, draw) {
        let i = choose|i: int|
            0 <= i < ab.len() && any_div1(
                cfg,
                (#[trigger] ab[i]).2,
                ab[i].1 == draw.powerball,
                ticket_distribution(cfg, ab[i].0@, draw.numbers@, draw.supps@),
            );
        if i < a.len() {
            assert(ab[i] == a[i]);
        } else {
            assert(ab[i] == b[i - a.len()]);
        }
    }
    if tickets_div1(cfg, a, draw) {
        let i = choose|i: int|
            0 <= i < a.len() && any_div1(
                cfg,
                (#[trigger] a[i]).2,
                a[i].1 == draw.powerball,
                ticket_distribution(cfg, a[i].0@, draw.numbers@, draw.supps@),
            );
        assert(ab[i] == a[i]);
    }
    if tickets_div1(cfg, b, draw) {
        let i = choose|i: int|
            0 <= i < b.len() && any_div1(
                cfg,
                (#[trigger] b[i]).2,
                b[i].1 == draw.powerball,
                ticket_distribution(cfg, b[i].0@, draw.numbers@, draw.supps@),
            );
        assert(ab[a.len() + i] == b[i]);
    }
}

/// The same entry played twice in one draw costs twice as many lines and
/// wins twice as much; the tally takes its wins twice over.
pub proof fn lemma_entry_twice(cfg: GameConfig, entry: (Vec<u32>, Option<u32>, bool), draw: Draw, wins: Seq<u64>)
    ensures
        games_total(cfg, seq![entry, entry]) == 2 * games_total(cfg, seq![entry]),
        tickets_value(cfg, seq![entry, entry], draw) == 2 * tickets_value(cfg, seq![entry], draw),
        tickets_wins(cfg, seq![entry, entry], draw, wins) == tickets_wins(
            cfg,
            seq![entry],
            draw,
            tickets_wins(cfg, seq![entry], draw, wins),
        ),
{
    let one = seq![entry];
    assert(one + one == seq![entry, entry]);
    lemma_entries_add_up(cfg, one, one, draw, wins);
}

/// A ticket number is never counted both as a main and as a supplementary
/// match, since a draw holds each number once.
proof fn lemma_disjoint_counts(user: Seq<u32>, a: Seq<u32>, b: Seq<u32>)
    requires
        (a + b).no_duplicates(),
    ensures
        count_in(user, a) + count_in(user, b) <= user.len(),
    decreases user.len(),
{
    if user.len() > 0 {
        lemma_disjoint_counts(user.drop_last(), a, b);
        let x = user.last();
        if a.contains(x) && b.contains(x) {
            let i = choose|i: int| 0 <= i < a.len() && a[i] == x;
            let j = choose|j: int| 0 <= j < b.len() && b[j] == x;
            assert((a + b)[i] == (a + b)[a.len() + j]);
        }
    }
}

/// Scores every ticket against `draw`: what they win in all (capped at
/// `u128::MAX`), whether one of them wins Division 1, and the division tally.
pub fn score_tickets(
    cfg: &GameConfig,
    tickets: &[(Vec<u32>, Option<u32>, bool)],
    draw: &Draw,
    division_wins: &mut Vec<u64>,
) -> (res: (u128, bool))
    requires
        cfg.drawable(),
        valid_draw(*cfg, *draw),
        tickets_countable(*cfg, tickets@),
    ensures
        res.0 == capped(tickets_value(*cfg, tickets@, *draw) as int, u128::MAX as int),
        res.1 == tickets_div1(*cfg, tickets@, *draw),
        final(division_wins)@ == tickets_wins(*cfg, tickets@, *draw, old(division_wins)@),
{
    let ghost c = *cfg;
    let ghost d = *draw;
    let ghost wins0 = division_wins@;
    let mut total: u128 = 0;
    let mut has_div1 = false;
    let mut i: usize = 0;
    while i < tickets.len()
        invariant
            c == *cfg,
            d == *draw,
            cfg.drawable(),
            valid_draw(c, d),
            tickets_countable(c, tickets@),
            i <= tickets@.len(),
            total == capped(tickets_value(c, tickets@.take(i as int), d) as int, u128::MAX as int),
            has_div1 == tickets_div1(c, tickets@.take(i as int), d),
            division_wins@ == tickets_wins(c, tickets@.take(i as int), d, wins0),
        decreases tickets.len() - i,
    {
        let ghost t = tickets@[i as int];
        let ghost prefix = tickets@.take(i as int);
        let ghost p1 = tickets@.take(i + 1);
        assert(p1.drop_last() == prefix);
        assert(p1.last() == t);
        let ticket = &tickets[i];
        proof {
            lemma_disjoint_counts(t.0@, d.numbers@, d.supps@);
            assert(binomial(t.0@.len(), c.draw_count as nat) <= u64::MAX);
            assert(scorable(c, t.0@, t.2, d.numbers@, d.supps@, division_wins@.len()));
        }
        let (prize, won) = score_ticket_lines(
            cfg,
            ticket.0.as_slice(),
            ticket.1,
            ticket.2,
            draw.numbers.as_slice(),
            draw.supps.as_slice(),
            draw.powerball,
            division_wins.as_mut_slice(),
        );
        proof {
            lemma_capped_add(
                tickets_value(c, prefix, d) as int,
                ticket_value(c, t, d) as int,
                u128::MAX as int,
            );
        }
        total = total.saturating_add(prize);
        if won {
            has_div1 = true;
        }
        proof {
            if has_div1 {
                assert(tickets_div1(c, p1, d)) by {
                    if won {
                        assert(p1[i as int] == t);
                    } else {
                        let j = choose|j: int|
                            0 <= j < prefix.len() && any_div1(
                                c,
                                (#[trigger] prefix[j]).2,
                                prefix[j].1 == d.powerball,
                                ticket_distribution(c, prefix[j].0@, d.numbers@, d.supps@),
                            );
                        assert(p1[j] == prefix[j]);
                    }
                }
            } else {
                assert forall|j: int| 0 <= j < p1.len() implies !any_div1(
                    c,
                    (#[trigger] p1[j]).2,
                    p1[j].1 == d.powerball,
                    ticket_distribution(c, p1[j].0@, d.numbers@, d.supps@),
                ) by {
                    if j < i {
                        assert(p1[j] == prefix[j]);
                    }
                }
            }
        }
        i = i + 1;
    }
    assert(tickets@.take(tickets@.len() as int) == tickets@);
    (total, has_div1)
}


// ---------------------------------------------------------------------------
// One draw of a simulation
// ---------------------------------------------------------------------------

/// What became of the run after a draw.
#[derive(PartialEq, Eq, Structural, Debug, Clone, Copy)]
pub enum DrawOutcome {
    /// The bankroll cannot pay for the draw: nothing was played.
    Bankrupt,
    /// The draw was played and some line won Division 1: the run stops.
    Division1,
    /// The draw was played; the run goes on.
    Continue,
}

/// The bankroll, winnings and tally after paying `cost` for a draw that wins `value`.
pub open spec fn paid_draw(old_stats: SimStats, new_stats: SimStats, cost: u128, value: nat) -> bool {
    &&& new_stats.total_draws == capped(old_stats.total_draws + 1, u64::MAX as int)
    &&& new_stats.balance == capped(old_stats.balance - cost + value, u128::MAX as int)
    &&& new_stats.total_won == capped(old_stats.total_won + value, u128::MAX as int)
}

/// `i` is one of the numbers in `nums`.
pub open spec fn drawn(nums: Seq<u32>, i: int) -> bool {
    exists|j: int| 0 <= j < nums.len() && nums[j] as int == i
}

/// `new` counts one more draw of each number of `nums` than `old` (each
/// count stops at `u64::MAX`); numbers beyond the table are not counted.
pub open spec fn counted_once(old: Seq<u64>, new: Seq<u64>, nums: Seq<u32>) -> bool {
    &&& new.len() == old.len()
    &&& forall|i: int|
        0 <= i < old.len() ==> #[trigger] new[i] == capped(
            old[i] + (if drawn(nums, i) {
                1int
            } else {
                0int
            }),
            u64::MAX as int,
        )
}

/// Counts one more draw of each of `nums` in `freq`.
fn count_draw(freq: &mut Vec<u64>, nums: &[u32])
    requires
        nums@.no_duplicates(),
    ensures
        counted_once(old(freq)@, final(freq)@, nums@),
{
    let ghost start = freq@;
    let mut j: usize = 0;
    while j < nums.len()
        invariant
            nums@.no_duplicates(),
            j <= nums@.len(),
            counted_once(start, freq@, nums@.take(j as int)),
        decreases nums.len() - j,
    {
        let n = nums[j];
        let ghost before = freq@;
        let ghost pre = nums@.take(j as int);
        let ghost next = nums@.take(j + 1);
        assert(!drawn(pre, n as int)) by {
            if drawn(pre, n as int) {
                let k = choose|k: int| 0 <= k < pre.len() && pre[k] as int == n as int;
                assert(nums@[k] == nums@[j as int]);
            }
        }
        if (n as usize) < freq.len() {
            let c = freq[n as usize];
            freq[n as usize] = c.saturating_add(1);
        }
        assert forall|i: int| 0 <= i < start.len() implies #[trigger] freq@[i] == capped(
            start[i] + (if drawn(next, i) {
                1int
            } else {
                0int
            }),
            u64::MAX as int,
        ) by {
            if i == n as int {
                assert(next[j as int] == n);
            } else {
                if drawn(next, i) {
                    let k = choose|k: int| 0 <= k < next.len() && next[k] as int == i;
                    assert(pre[k] == next[k]);
                }
                if drawn(pre, i) {
                    let k = choose|k: int| 0 <= k < pre.len() && pre[k] as int == i;
                    assert(pre[k] == next[k]);
                }
            }
        }
        j = j + 1;
    }
    assert(nums@.take(nums@.len() as int) == nums@);
}

/// Plays one draw of a batch run: when the bankroll covers `cost`, pays it,
/// scores the tickets against `draw`, adds the winnings and the division
/// tally, and reports whether Division 1 was won. Otherwise nothing changes.
pub fn play_batch_draw(
    stats: &mut SimStats,
    cfg: &GameConfig,
    tickets: &[(Vec<u32>, Option<u32>, bool)],
    cost: u128,
    draw: &Draw,
) -> (res: DrawOutcome)
    requires
        cfg.drawable(),
        valid_draw(*cfg, *draw),
        tickets_countable(*cfg, tickets@),
    ensures
        old(stats).balance < cost ==> res == DrawOutcome::Bankrupt && *final(stats) == *old(stats),
        old(stats).balance >= cost ==> {
            &&& paid_draw(*old(stats), *final(stats), cost, tickets_value(*cfg, tickets@, *draw))
            &&& final(stats).division_wins@ == tickets_wins(*cfg, tickets@, *draw, old(stats).division_wins@)
            &&& final(stats).history == old(stats).history
            &&& final(stats).number_frequency == old(stats).number_frequency
            &&& final(stats).pb_frequency == old(stats).pb_frequency
            &&& res == if tickets_div1(*cfg, tickets@, *draw) {
                DrawOutcome::Division1
            } else {
                DrawOutcome::Continue
            }
        },
{
    if stats.balance < cost {
        return DrawOutcome::Bankrupt;
    }
    stats.total_draws = stats.total_draws.saturating_add(1);
    stats.balance = stats.balance - cost;
    let (prize, won) = score_tickets(cfg, tickets, draw, &mut stats.division_wins);
    proof {
        lemma_capped_add(
            stats.balance as int,
            tickets_value(*cfg, tickets@, *draw) as int,
            u128::MAX as int,
        );
        lemma_capped_add(
            stats.total_won as int,
            tickets_value(*cfg, tickets@, *draw) as int,
            u128::MAX as int,
        );
    }
    stats.balance = stats.balance.saturating_add(prize);
    stats.total_won = stats.total_won.saturating_add(prize);
    if won {
        DrawOutcome::Division1
    } else {
        DrawOutcome::Continue
    }
}

/// Every unit of the bankroll is accounted for: what is left, plus what
/// the draws cost, is the starting bankroll plus the winnings.
pub open spec fn ledger_holds(s: SimStats, start: nat, cost: nat) -> bool {
    s.balance + s.total_draws * cost == start + s.total_won
}

/// A fresh run's books balance.
pub proof fn lemma_fresh_ledger(s: SimStats, start: nat, cost: nat)
    requires
        s.balance == start,
        s.total_draws == 0,
        s.total_won == 0,
    ensures
        ledger_holds(s, start, cost),
{
    assert(s.total_draws * cost == 0) by (nonlinear_arith)
        requires
            s.total_draws == 0,
    ;
}

/// A played draw keeps the books balanced, as long as no count reaches its
/// limit: the draw's cost leaves the bankroll and its winnings enter it.
pub proof fn lemma_draw_keeps_ledger(old: SimStats, new: SimStats, start: nat, cost: nat, value: nat)
    requires
        ledger_holds(old, start, cost),
        old.balance >= cost,
        paid_draw(old, new, cost as u128, value),
        cost <= u128::MAX,
        old.total_draws < u64::MAX,
        old.balance - cost + value <= u128::MAX,
        old.total_won + value <= u128::MAX,
    ensures
        ledger_holds(new, start, cost),
{
    assert((old.total_draws + 1) * cost == old.total_draws * cost + cost) by (nonlinear_arith);
}

/// How often the bankroll is sampled into the history, in draws.
pub const HISTORY_INTERVAL: u64 = 1000;

/// Plays one draw of a live run. Like [`play_batch_draw`], and besides:
/// counts the drawn numbers and Powerball in the frequency tables, and
/// records `(draws, balance)` in the history after a Division 1 win and
/// every [`HISTORY_INTERVAL`] draws.
pub fn play_live_draw(
    stats: &mut SimStats,
    cfg: &GameConfig,
    tickets: &[(Vec<u32>, Option<u32>, bool)],
    cost: u128,
    draw: &Draw,
) -> (res: DrawOutcome)
    requires
        cfg.drawable(),
        valid_draw(*cfg, *draw),
        tickets_countable(*cfg, tickets@),
        draw.powerball matches Some(pb) ==> pb < old(stats).pb_frequency@.len(),
    ensures
        old(stats).balance < cost ==> res == DrawOutcome::Bankrupt && *final(stats) == *old(stats),
        old(stats).balance >= cost ==> {
            let s = *final(stats);
            let div1 = tickets_div1(*cfg, tickets@, *draw);
            &&& paid_draw(*old(stats), s, cost, tickets_value(*cfg, tickets@, *draw))
            &&& s.division_wins@ == tickets_wins(*cfg, tickets@, *draw, old(stats).division_wins@)
            &&& counted_once(
                old(stats).number_frequency@,
                s.number_frequency@,
                draw.numbers@ + draw.supps@,
            )
            &&& s.pb_frequency@ == match draw.powerball {
                Some(pb) => old(stats).pb_frequency@.update(
                    pb as int,
                    capped(old(stats).pb_frequency@[pb as int] + 1, u64::MAX as int) as u64,
                ),
                None => old(stats).pb_frequency@,
            }
            &&& s.history@ == if div1 || s.total_draws % HISTORY_INTERVAL == 0 {
                old(stats).history@.push((s.total_draws, s.balance))
            } else {
                old(stats).history@
            }
            &&& res == if div1 {
                DrawOutcome::Division1
            } else {
                DrawOutcome::Continue
            }
        },
{
    if stats.balance < cost {
        return DrawOutcome::Bankrupt;
    }
    stats.total_draws = stats.total_draws.saturating_add(1);
    stats.balance = stats.balance - cost;
    let ghost freq0 = stats.number_frequency@;
    proof {
        let all = draw.numbers@ + draw.supps@;
        assert forall|i: int, j: int| 0 <= i < j < draw.numbers@.len() implies draw.numbers@[i]
            != draw.numbers@[j] by {
            assert(all[i] == draw.numbers@[i] && all[j] == draw.numbers@[j]);
        }
        assert forall|i: int, j: int| 0 <= i < j < draw.supps@.len() implies draw.supps@[i]
            != draw.supps@[j] by {
            let n = draw.numbers@.len() as int;
            assert(all[n + i] == draw.supps@[i] && all[n + j] == draw.supps@[j]);
        }
    }
    count_draw(&mut stats.number_frequency, draw.numbers.as_slice());
    let ghost freq1 = stats.number_frequency@;
    count_draw(&mut stats.number_frequency, draw.supps.as_slice());
    proof {
        let all = draw.numbers@ + draw.supps@;
        let n = draw.numbers@.len() as int;
        assert forall|i: int| 0 <= i < freq0.len() implies #[trigger] stats.number_frequency@[i] == capped(
            freq0[i] + (if drawn(all, i) {
                1int
            } else {
                0int
            }),
            u64::MAX as int,
        ) by {
            assert(freq1[i] == capped(
                freq0[i] + (if drawn(draw.numbers@, i) {
                    1int
                } else {
                    0int
                }),
                u64::MAX as int,
            ));
            if drawn(draw.numbers@, i) {
                let k = choose|k: int| 0 <= k < draw.numbers@.len() && draw.numbers@[k] as int == i;
                assert(all[k] == draw.numbers@[k]);
                if drawn(draw.supps@, i) {
                    let m = choose|m: int| 0 <= m < draw.supps@.len() && draw.supps@[m] as int == i;
                    assert(all[n + m] == draw.supps@[m]);
                    assert(all[k] == all[n + m]);
                }
            }
            if drawn(draw.supps@, i) {
                let m = choose|m: int| 0 <= m < draw.supps@.len() && draw.supps@[m] as int == i;
                assert(all[n + m] == draw.supps@[m]);
            }
            if drawn(all, i) {
                let k = choose|k: int| 0 <= k < all.len() && all[k] as int == i;
                if k < n {
                    assert(draw.numbers@[k] == all[k]);
                } else {
                    assert(draw.supps@[k - n] == all[k]);
                }
            }
        }
    }
    match draw.powerball {
        Some(pb) => {
            let c = stats.pb_frequency[pb as usize];
            stats.pb_frequency[pb as usize] = c.saturating_add(1);
        },
        None => {},
    }
    let (prize, won) = score_tickets(cfg, tickets, draw, &mut stats.division_wins);
    proof {
        lemma_capped_add(
            stats.balance as int,
            tickets_value(*cfg, tickets@, *draw) as int,
            u128::MAX as int,
        );
        lemma_capped_add(
            stats.total_won as int,
            tickets_value(*cfg, tickets@, *draw) as int,
            u128::MAX as int,
        );
    }
    stats.balance = stats.balance.saturating_add(prize);
    stats.total_won = stats.total_won.saturating_add(prize);
    if won {
        stats.history.push((stats.total_draws, stats.balance));
        return DrawOutcome::Division1;
    }
    if stats.total_draws % HISTORY_INTERVAL == 0 {
        stats.history.push((stats.total_draws, stats.balance));
    }
    DrawOutcome::Continue
}


// ---------------------------------------------------------------------------
// Fresh statistics
// ---------------------------------------------------------------------------

/// A table of `n` zero counts.
pub fn zeros(n: usize) -> (res: Vec<u64>)
    ensures
        res@.len() == n,
        forall|i: int| 0 <= i < n ==> res@[i] == 0,
{
    let mut v: Vec<u64> = Vec::new();
    let mut i: usize = 0;
    while i < n
        invariant
            i <= n,
            v@.len() == i,
            forall|k: int| 0 <= k < i ==> v@[k] == 0,
        decreases n - i,
    {
        v.push(0);
        i = i + 1;
    }
    v
}

/// The highest Powerball of a game, or 0 when it has none configured.
pub open spec fn pb_max_or_zero(cfg: GameConfig) -> nat {
    match cfg.powerball_max {
        Some(m) => m as nat,
        None => 0,
    }
}

/// The statistics a run of one game starts from: the starting bankroll,
/// nothing played, a tally for each division and frequency tables indexed by
/// number (0 unused).
pub fn new_run_stats(cfg: &GameConfig, starting_balance: u64) -> (res: SimStats)
    requires
        cfg.pool_max < u32::MAX,
        pb_max_or_zero(*cfg) < usize::MAX,
    ensures
        res.balance == starting_balance,
        res.total_draws == 0,
        res.total_won == 0,
        res.division_wins@ == Seq::new(cfg.prizes@.len(), |i: int| 0u64),
        res.history@.len() == 0,
        res.number_frequency@ == Seq::new((cfg.pool_max + 1) as nat, |i: int| 0u64),
        res.pb_frequency@ == Seq::new(pb_max_or_zero(*cfg) + 1, |i: int| 0u64),
{
    let pb_max: u32 = match cfg.powerball_max {
        Some(m) => m,
        None => 0,
    };
    let division_wins = zeros(cfg.prizes.len());
    let number_frequency = zeros((cfg.pool_max + 1) as usize);
    let pb_frequency = zeros(pb_max as usize + 1);
    assert(division_wins@ == Seq::new(cfg.prizes@.len(), |i: int| 0u64));
    assert(number_frequency@ == Seq::new((cfg.pool_max + 1) as nat, |i: int| 0u64));
    assert(pb_frequency@ == Seq::new(pb_max_or_zero(*cfg) + 1, |i: int| 0u64));
    SimStats {
        balance: starting_balance as u128,
        total_draws: 0,
        total_won: 0,
        division_wins,
        history: Vec::new(),
        number_frequency,
        pb_frequency,
    }
}

/// Adding `amount` wins to one division never lowers a count and raises the
/// total by at most `amount`.
proof fn lemma_add_wins_bounded(wins: Seq<u64>, idx: Option<nat>, amount: nat)
    ensures
        add_wins(wins, idx, amount).len() == wins.len(),
        forall|i: int| 0 <= i < wins.len() ==> wins[i] <= #[trigger] add_wins(wins, idx, amount)[i],
        seq_sum(add_wins(wins, idx, amount)) <= seq_sum(wins) + amount,
{
    match idx {
        Some(d) => {
            if d < wins.len() {
                let v = capped(wins[d as int] + amount, u64::MAX as int) as u64;
                lemma_sum_update(wins, d as int, v);
            }
        },
        None => {},
    }
}

proof fn lemma_wins_after_bounded(
    cfg: GameConfig,
    is_powerhit: bool,
    pb_matched: bool,
    wins: Seq<u64>,
    entries: Seq<(nat, nat, nat)>,
)
    requires
        pb_variants(cfg, is_powerhit) >= 1,
    ensures
        wins_after(cfg, is_powerhit, pb_matched, wins, entries).len() == wins.len(),
        forall|i: int|
            0 <= i < wins.len() ==> wins[i] <= #[trigger] wins_after(cfg, is_powerhit, pb_matched, wins, entries)[i],
        seq_sum(wins_after(cfg, is_powerhit, pb_matched, wins, entries)) <= seq_sum(wins) + pb_variants(
            cfg,
            is_powerhit,
        ) * line_count(entries),
    decreases entries.len(),
{
    if entries.len() > 0 {
        let prev = entries.drop_last();
        let e = entries.last();
        lemma_wins_after_bounded(cfg, is_powerhit, pb_matched, wins, prev);
        let w = wins_after(cfg, is_powerhit, pb_matched, wins, prev);
        let v = pb_variants(cfg, is_powerhit);
        if plays_powerhit(cfg, is_powerhit) {
            let hit = add_wins(w, rule_index(cfg, e.0, e.1, true), e.2);
            lemma_add_wins_bounded(w, rule_index(cfg, e.0, e.1, true), e.2);
            lemma_add_wins_bounded(hit, rule_index(cfg, e.0, e.1, false), e.2 * (v - 1) as nat);
            assert(e.2 + e.2 * (v - 1) as nat == v * e.2) by (nonlinear_arith)
                requires
                    v >= 1,
            ;
        } else {
            lemma_add_wins_bounded(w, rule_index(cfg, e.0, e.1, line_pb(cfg, pb_matched)), e.2);
        }
        assert(v * line_count(prev) + v * e.2 == v * line_count(entries)) by (nonlinear_arith)
            requires
                line_count(entries) == line_count(prev) + e.2,
        ;
    }
}

/// A ticket never adds more wins to the division tally than the lines it
/// plays: `C(n, draw_count)` lines of `n` numbers, each with every Powerball
/// value for a PowerHit. No count goes down and the tally keeps its length.
pub proof fn lemma_ticket_wins_bounded(
    cfg: GameConfig,
    user_nums: Seq<u32>,
    is_powerhit: bool,
    draw_nums: Seq<u32>,
    draw_supps: Seq<u32>,
    pb_matched: bool,
    wins: Seq<u64>,
)
    requires
        count_in(user_nums, draw_nums) + count_in(user_nums, draw_supps) <= user_nums.len(),
        pb_variants(cfg, is_powerhit) >= 1,
    ensures
        ({
            let after = wins_after(
                cfg,
                is_powerhit,
                pb_matched,
                wins,
                ticket_distribution(cfg, user_nums, draw_nums, draw_supps),
            );
            &&& after.len() == wins.len()
            &&& forall|i: int| 0 <= i < wins.len() ==> wins[i] <= #[trigger] after[i]
            &&& seq_sum(after) <= seq_sum(wins) + pb_variants(cfg, is_powerhit) * binomial(
                user_nums.len(),
                cfg.draw_count as nat,
            )
        }),
{
    let x = count_in(user_nums, draw_nums);
    let y = count_in(user_nums, draw_supps);
    let z = (user_nums.len() - x - y) as nat;
    lemma_every_line_counted(x, y, z, cfg.draw_count as nat);
    assert(x + y + z == user_nums.len());
    lemma_wins_after_bounded(
        cfg,
        is_powerhit,
        pb_matched,
        wins,
        ticket_distribution(cfg, user_nums, draw_nums, draw_supps),
    );
}

// ---------------------------------------------------------------------------
// A whole batch run
// ---------------------------------------------------------------------------

/// Scoring all the tickets in a valid draw adds at most the lines they play
/// to the division tally, lowers no count and keeps the tally's length.
pub proof fn lemma_tickets_wins_bounded(
    cfg: GameConfig,
    tickets: Seq<(Vec<u32>, Option<u32>, bool)>,
    draw: Draw,
    wins: Seq<u64>,
)
    requires
        cfg.drawable(),
        valid_draw(cfg, draw),
    ensures
        tickets_wins(cfg, tickets, draw, wins).len() == wins.len(),
        forall|i: int| 0 <= i < wins.len() ==> wins[i] <= #[trigger] tickets_wins(cfg, tickets, draw, wins)[i],
        seq_sum(tickets_wins(cfg, tickets, draw, wins)) <= seq_sum(wins) + games_total(cfg, tickets),
    decreases tickets.len(),
{
    if tickets.len() > 0 {
        let prev = tickets.drop_last();
        let t = tickets.last();
        lemma_tickets_wins_bounded(cfg, prev, draw, wins);
        let w = tickets_wins(cfg, prev, draw, wins);
        lemma_disjoint_counts(t.0@, draw.numbers@, draw.supps@);
        lemma_ticket_wins_bounded(cfg, t.0@, t.2, draw.numbers@, draw.supps@, t.1 == draw.powerball, w);
        let v = pb_variants(cfg, t.2);
        let c = binomial(t.0@.len(), cfg.draw_count as nat);
        assert(v * c == c * v) by (nonlinear_arith);
    }
}

/// The bankroll and the winnings after paying `cost` for each of `draws` in
/// turn, from a bankroll of `start`; each stops at `u128::MAX`.
pub open spec fn run_totals(
    cfg: GameConfig,
    tickets: Seq<(Vec<u32>, Option<u32>, bool)>,
    cost: nat,
    start: nat,
    draws: Seq<Draw>,
) -> (int, int)
    decreases draws.len(),
{
    if draws.len() == 0 {
        (start as int, 0)
    } else {
        let before = run_totals(cfg, tickets, cost, start, draws.drop_last());
        let value = tickets_value(cfg, tickets, draws.last());
        (capped(before.0 - cost + value, u128::MAX as int), capped(before.1 + value, u128::MAX as int))
    }
}

/// Neither the bankroll nor the winnings ever reach their limit over `draws`.
pub open spec fn run_uncapped(
    cfg: GameConfig,
    tickets: Seq<(Vec<u32>, Option<u32>, bool)>,
    cost: nat,
    start: nat,
    draws: Seq<Draw>,
) -> bool
    decreases draws.len(),
{
    if draws.len() == 0 {
        true
    } else {
        let before = run_totals(cfg, tickets, cost, start, draws.drop_last());
        let value = tickets_value(cfg, tickets, draws.last());
        &&& run_uncapped(cfg, tickets, cost, start, draws.drop_last())
        &&& before.0 - cost + value <= u128::MAX
        &&& before.1 + value <= u128::MAX
    }
}

/// The division tally after scoring the tickets in each of `draws` in turn.
pub open spec fn run_tally(
    cfg: GameConfig,
    tickets: Seq<(Vec<u32>, Option<u32>, bool)>,
    draws: Seq<Draw>,
    wins: Seq<u64>,
) -> Seq<u64>
    decreases draws.len(),
{
    if draws.len() == 0 {
        wins
    } else {
        tickets_wins(cfg, tickets, draws.last(), run_tally(cfg, tickets, draws.drop_last(), wins))
    }
}

/// `stats` is where a run of the tickets stands after playing `draws`: each
/// draw valid and paid for from the bankroll before it, each scored in turn
/// from a fresh run of `start`; the books balance while no total reaches its
/// limit, and the tally holds no more wins than the lines played.
#[verifier::opaque]
pub open spec fn run_so_far(
    cfg: GameConfig,
    tickets: Seq<(Vec<u32>, Option<u32>, bool)>,
    cost: u128,
    start: u64,
    draws: Seq<Draw>,
    stats: SimStats,
) -> bool {
    let totals = run_totals(cfg, tickets, cost as nat, start as nat, draws);
    &&& stats.total_draws == draws.len()
    &&& forall|j: int|
        0 <= j < draws.len() ==> valid_draw(cfg, #[trigger] draws[j]) && run_totals(
            cfg,
            tickets,
            cost as nat,
            start as nat,
            draws.take(j),
        ).0 >= cost
    &&& stats.balance == totals.0
    &&& stats.total_won == totals.1
    &&& stats.division_wins@ == run_tally(cfg, tickets, draws, Seq::new(cfg.prizes@.len(), |i: int| 0u64))
    &&& run_uncapped(cfg, tickets, cost as nat, start as nat, draws) ==> ledger_holds(stats, start as nat, cost as nat)
    &&& seq_sum(stats.division_wins@) <= draws.len() * games_total(cfg, tickets)
}

/// `draws` are the draws of a run that ended with `stats` and `outcome`: the
/// run stands as [`run_so_far`] says, no draw but the last won Division 1,
/// and the outcome is `Division1` exactly when the last one did.
#[verifier::opaque]
pub open spec fn run_of(
    cfg: GameConfig,
    tickets: Seq<(Vec<u32>, Option<u32>, bool)>,
    cost: u128,
    start: u64,
    draws: Seq<Draw>,
    stats: SimStats,
    outcome: DrawOutcome,
) -> bool {
    &&& run_so_far(cfg, tickets, cost, start, draws, stats)
    &&& forall|j: int| 0 <= j < draws.len() - 1 ==> !tickets_div1(cfg, tickets, #[trigger] draws[j])
    &&& (outcome == DrawOutcome::Division1 <==> draws.len() > 0 && tickets_div1(cfg, tickets, draws.last()))
}

/// Plays one run of the tickets from a fresh bankroll of `starting_balance`,
/// paying `cost` a draw, until the bankroll cannot pay for a draw
/// (`Bankrupt`), a draw wins Division 1 (`Division1`), or the draw counter
/// reaches `u64::MAX` (`Continue`). Which draws came up rests on chance; the
/// result is the run over the draws that did, as [`run_of`] states. No draw
/// is played exactly when the starting bankroll does not cover one, and then
/// the bankroll is untouched and nothing is won.
pub fn run_until_stop(
    cfg: &GameConfig,
    tickets: &[(Vec<u32>, Option<u32>, bool)],
    cost: u128,
    starting_balance: u64,
) -> (res: (SimStats, DrawOutcome))
    requires
        cfg.drawable(),
        tickets_countable(*cfg, tickets@),
        cfg.pool_max < u32::MAX,
        pb_max_or_zero(*cfg) < usize::MAX,
    ensures
        exists|draws: Seq<Draw>| #[trigger] run_of(*cfg, tickets@, cost, starting_balance, draws, res.0, res.1),
        res.1 == DrawOutcome::Bankrupt ==> res.0.balance < cost,
        res.1 == DrawOutcome::Continue ==> res.0.total_draws == u64::MAX,
        (res.0.total_draws == 0 <==> starting_balance < cost),
        res.0.total_draws == 0 ==> res.0.balance == starting_balance && res.0.total_won == 0,
        res.0.history@.len() == 0,
        res.0.division_wins@.len() == cfg.prizes@.len(),
        res.0.number_frequency@ == Seq::new((cfg.pool_max + 1) as nat, |i: int| 0u64),
        res.0.pb_frequency@ == Seq::new(pb_max_or_zero(*cfg) + 1, |i: int| 0u64),
{
    let mut stats = new_run_stats(cfg, starting_balance);
    let ghost mut draws: Seq<Draw> = Seq::empty();
    proof {
        lemma_run_start(*cfg, tickets@, cost, starting_balance, stats);
    }
    loop
        invariant
            cfg.drawable(),
            tickets_countable(*cfg, tickets@),
            run_so_far(*cfg, tickets@, cost, starting_balance, draws, stats),
            forall|j: int| 0 <= j < draws.len() ==> !tickets_div1(*cfg, tickets@, #[trigger] draws[j]),
            stats.history@.len() == 0,
            stats.division_wins@.len() == cfg.prizes@.len(),
            stats.number_frequency@ == Seq::new((cfg.pool_max + 1) as nat, |i: int| 0u64),
            stats.pb_frequency@ == Seq::new(pb_max_or_zero(*cfg) + 1, |i: int| 0u64),
            stats.total_draws == 0 ==> stats.balance == starting_balance && stats.total_won == 0,
            stats.total_draws > 0 ==> starting_balance >= cost,
        decreases u64::MAX - stats.total_draws,
    {
        if stats.total_draws == u64::MAX {
            proof {
                lemma_run_ends(*cfg, tickets@, cost, starting_balance, draws, stats, DrawOutcome::Continue);
            }
            let r = (stats, DrawOutcome::Continue);
            assert(run_of(*cfg, tickets@, cost, starting_balance, draws, r.0, r.1));
            return r;
        }
        let draw = random_draw(cfg);
        let ghost before = stats;
        let outcome = play_batch_draw(&mut stats, cfg, tickets, cost, &draw);
        proof {
            lemma_tally_len(*cfg, tickets@, draw, before.division_wins@);
        }
        if outcome == DrawOutcome::Bankrupt {
            proof {
                lemma_run_ends(*cfg, tickets@, cost, starting_balance, draws, stats, DrawOutcome::Bankrupt);
            }
            let r = (stats, DrawOutcome::Bankrupt);
            assert(run_of(*cfg, tickets@, cost, starting_balance, draws, r.0, r.1));
            return r;
        }
        proof {
            lemma_run_step(*cfg, tickets@, cost, starting_balance, draws, before, stats, draw);
            let next = draws.push(draw);
            assert(next.last() == draw);
            assert forall|j: int| 0 <= j < next.len() - 1 implies !tickets_div1(*cfg, tickets@, #[trigger] next[j]) by {
                assert(next[j] == draws[j]);
            }
            draws = next;
        }
        if outcome == DrawOutcome::Division1 {
            proof {
                lemma_run_ends(*cfg, tickets@, cost, starting_balance, draws, stats, DrawOutcome::Division1);
            }
            let r = (stats, DrawOutcome::Division1);
            assert(run_of(*cfg, tickets@, cost, starting_balance, draws, r.0, r.1));
            return r;
        }
    }
}

/// A fresh run stands at the start of [`run_so_far`], with no draw.
proof fn lemma_run_start(
    cfg: GameConfig,
    tickets: Seq<(Vec<u32>, Option<u32>, bool)>,
    cost: u128,
    start: u64,
    stats: SimStats,
)
    requires
        stats.balance == start,
        stats.total_draws == 0,
        stats.total_won == 0,
        stats.division_wins@ == Seq::new(cfg.prizes@.len(), |i: int| 0u64),
    ensures
        run_so_far(cfg, tickets, cost, start, Seq::empty(), stats),
{
    reveal(run_so_far);
    lemma_sum_zeros(cfg.prizes@.len());
    lemma_fresh_ledger(stats, start as nat, cost as nat);
    let none = Seq::<Draw>::empty();
    assert(none.len() * games_total(cfg, tickets) == 0);
}

/// A run that stands as [`run_so_far`] says, and whose draws other than the
/// last did not win Division 1, ends as [`run_of`] says with an outcome that
/// is `Division1` exactly when its last draw won it.
proof fn lemma_run_ends(
    cfg: GameConfig,
    tickets: Seq<(Vec<u32>, Option<u32>, bool)>,
    cost: u128,
    start: u64,
    draws: Seq<Draw>,
    stats: SimStats,
    outcome: DrawOutcome,
)
    requires
        run_so_far(cfg, tickets, cost, start, draws, stats),
        forall|j: int| 0 <= j < draws.len() - 1 ==> !tickets_div1(cfg, tickets, #[trigger] draws[j]),
        outcome == DrawOutcome::Division1 <==> draws.len() > 0 && tickets_div1(cfg, tickets, draws.last()),
    ensures
        run_of(cfg, tickets, cost, start, draws, stats, outcome),
{
    reveal(run_of);
}

/// One paid draw carries the run forward by that draw.
proof fn lemma_run_step(
    cfg: GameConfig,
    tickets: Seq<(Vec<u32>, Option<u32>, bool)>,
    cost: u128,
    start: u64,
    draws: Seq<Draw>,
    before: SimStats,
    after: SimStats,
    draw: Draw,
)
    requires
        cfg.drawable(),
        valid_draw(cfg, draw),
        run_so_far(cfg, tickets, cost, start, draws, before),
        before.balance >= cost,
        before.total_draws < u64::MAX,
        paid_draw(before, after, cost, tickets_value(cfg, tickets, draw)),
        after.division_wins@ == tickets_wins(cfg, tickets, draw, before.division_wins@),
    ensures
        run_so_far(cfg, tickets, cost, start, draws.push(draw), after),
{
    reveal(run_so_far);
    let next = draws.push(draw);
    let value = tickets_value(cfg, tickets, draw);
    let g = games_total(cfg, tickets);
    assert(next.drop_last() == draws);
    assert(next.last() == draw);
    assert forall|j: int| 0 <= j < next.len() implies valid_draw(cfg, #[trigger] next[j]) && run_totals(
        cfg,
        tickets,
        cost as nat,
        start as nat,
        next.take(j),
    ).0 >= cost by {
        if j < draws.len() {
            assert(next[j] == draws[j]);
            assert(next.take(j) == draws.take(j));
        } else {
            assert(next.take(j) == draws);
        }
    }
    lemma_tickets_wins_bounded(cfg, tickets, draw, before.division_wins@);
    assert(draws.len() * g + g == next.len() * g) by (nonlinear_arith)
        requires
            next.len() == draws.len() + 1,
    ;
    if run_uncapped(cfg, tickets, cost as nat, start as nat, next) {
        lemma_draw_keeps_ledger(before, after, start as nat, cost as nat, value);
    }
}

// ---------------------------------------------------------------------------
// Frequency analysis
// ---------------------------------------------------------------------------

/// The sum of the counts.
pub open spec fn seq_sum(s: Seq<u64>) -> nat
    decreases s.len(),
{
    if s.len() == 0 {
        0
    } else {
        seq_sum(s.drop_last()) + s.last() as nat
    }
}

proof fn lemma_sum_update(s: Seq<u64>, i: int, v: u64)
    requires
        0 <= i < s.len(),
    ensures
        seq_sum(s.update(i, v)) == seq_sum(s) - s[i] + v,
    decreases s.len(),
{
    let t = s.update(i, v);
    if i < s.len() - 1 {
        assert(t.drop_last() == s.drop_last().update(i, v));
        lemma_sum_update(s.drop_last(), i, v);
    } else {
        assert(t.drop_last() == s.drop_last());
    }
}

proof fn lemma_sum_zeros(n: nat)
    ensures
        seq_sum(Seq::new(n, |i: int| 0u64)) == 0,
    decreases n,
{
    if n > 0 {
        assert(Seq::new(n, |i: int| 0u64).drop_last() == Seq::new((n - 1) as nat, |i: int| 0u64));
        lemma_sum_zeros((n - 1) as nat);
    }
}

/// Adds one to the count of each of the distinct numbers `nums`, which all
/// index the table and have room to grow; every other count stays as it is.
pub fn tally_draw(freq: &mut Vec<u64>, nums: &[u32])
    requires
        nums@.no_duplicates(),
        forall|j: int|
            0 <= j < nums@.len() ==> #[trigger] nums@[j] < old(freq)@.len() && old(freq)@[nums@[j] as int]
                < u64::MAX,
    ensures
        final(freq)@.len() == old(freq)@.len(),
        forall|i: int|
            0 <= i < old(freq)@.len() ==> #[trigger] final(freq)@[i] == old(freq)@[i] + (if drawn(nums@, i) {
                1int
            } else {
                0int
            }),
        seq_sum(final(freq)@) == seq_sum(old(freq)@) + nums@.len(),
{
    let ghost start = freq@;
    let mut j: usize = 0;
    while j < nums.len()
        invariant
            nums@.no_duplicates(),
            forall|k: int|
                0 <= k < nums@.len() ==> #[trigger] nums@[k] < start.len() && start[nums@[k] as int] < u64::MAX,
            j <= nums@.len(),
            freq@.len() == start.len(),
            forall|i: int|
                0 <= i < start.len() ==> #[trigger] freq@[i] == start[i] + (if drawn(
                    nums@.take(j as int),
                    i,
                ) {
                    1int
                } else {
                    0int
                }),
            seq_sum(freq@) == seq_sum(start) + j,
        decreases nums.len() - j,
    {
        let n = nums[j] as usize;
        let ghost pre = nums@.take(j as int);
        let ghost next = nums@.take(j + 1);
        assert(nums@[j as int] < start.len());
        assert(!drawn(pre, n as int)) by {
            if drawn(pre, n as int) {
                let k = choose|k: int| 0 <= k < pre.len() && pre[k] as int == n as int;
                assert(nums@[k] == nums@[j as int]);
            }
        }
        assert(next[j as int] == nums@[j as int]);
        let c = freq[n];
        proof {
            lemma_sum_update(freq@, n as int, (c + 1) as u64);
        }
        freq[n] = c + 1;
        assert forall|i: int| 0 <= i < start.len() implies #[trigger] freq@[i] == start[i] + (if drawn(
            next,
            i,
        ) {
            1int
        } else {
            0int
        }) by {
            if i != n as int {
                if drawn(next, i) {
                    let k = choose|k: int| 0 <= k < next.len() && next[k] as int == i;
                    assert(pre[k] == next[k]);
                }
                if drawn(pre, i) {
                    let k = choose|k: int| 0 <= k < pre.len() && pre[k] as int == i;
                    assert(pre[k] == next[k]);
                }
            }
        }
        j = j + 1;
    }
    assert(nums@.take(nums@.len() as int) == nums@);
}

/// The frequency tables of an analysis sample.
#[derive(Clone, Debug)]
pub struct FrequencySample {
    pub numbers: Vec<u64>,
    pub powerballs: Vec<u64>,
}

/// How many of the draws `draws` hold the number `i`.
pub open spec fn times_drawn(draws: Seq<Seq<u32>>, i: int) -> nat
    decreases draws.len(),
{
    if draws.len() == 0 {
        0
    } else {
        times_drawn(draws.drop_last(), i) + (if drawn(draws.last(), i) {
            1nat
        } else {
            0nat
        })
    }
}

/// How many of the Powerballs `pbs` are `i`.
pub open spec fn times_pb(pbs: Seq<u32>, i: int) -> nat
    decreases pbs.len(),
{
    if pbs.len() == 0 {
        0
    } else {
        times_pb(pbs.drop_last(), i) + (if pbs.last() as int == i {
            1nat
        } else {
            0nat
        })
    }
}

/// `s` is what one draw of `cfg` puts into the number table: its main and
/// supplementary numbers, distinct and in the pool.
pub open spec fn drawn_numbers(cfg: GameConfig, s: Seq<u32>) -> bool {
    &&& s.len() == crate::draw::min_u32((cfg.draw_count + cfg.supps) as u32, cfg.pool_max)
    &&& s.no_duplicates()
    &&& crate::draw::all_in_pool(s, cfg.pool_max)
}

/// `sample` counts, for each number and each Powerball, the draws of `cfg`
/// that hold it: `draws` are the numbers of `iterations` draws and `pbs`
/// their Powerballs (none in a game without one).
pub open spec fn counts_of(
    cfg: GameConfig,
    iterations: nat,
    draws: Seq<Seq<u32>>,
    pbs: Seq<u32>,
    sample: FrequencySample,
) -> bool {
    &&& draws.len() == iterations
    &&& forall|j: int| 0 <= j < draws.len() ==> drawn_numbers(cfg, #[trigger] draws[j])
    &&& pbs.len() == if cfg.has_powerball {
        iterations
    } else {
        0
    }
    &&& forall|j: int| 0 <= j < pbs.len() ==> 1 <= #[trigger] pbs[j] <= pb_max_or_zero(cfg)
    &&& sample.numbers@.len() == cfg.pool_max + 1
    &&& sample.powerballs@.len() == pb_max_or_zero(cfg) + 1
    &&& forall|i: int| 0 <= i < sample.numbers@.len() ==> #[trigger] sample.numbers@[i] == times_drawn(draws, i)
    &&& forall|i: int| 0 <= i < sample.powerballs@.len() ==> #[trigger] sample.powerballs@[i] == times_pb(pbs, i)
}

/// Draws the game `iterations` times and counts how often each number
/// (main or supplementary) and each Powerball comes up, in tables indexed by
/// number: the count of a number is the number of draws that hold it.
/// Whatever the draws, each draw counts `min(draw_count + supps, pool_max)`
/// distinct numbers and, in a Powerball game, one Powerball.
pub fn sample_frequencies(cfg: &GameConfig, iterations: u64) -> (res: FrequencySample)
    requires
        cfg.drawable(),
        cfg.pool_max < u32::MAX,
        pb_max_or_zero(*cfg) < u32::MAX,
    ensures
        exists|draws: Seq<Seq<u32>>, pbs: Seq<u32>| #[trigger] counts_of(*cfg, iterations as nat, draws, pbs, res),
        res.numbers@.len() == cfg.pool_max + 1,
        res.powerballs@.len() == pb_max_or_zero(*cfg) + 1,
        res.numbers@[0] == 0,
        res.powerballs@[0] == 0,
        forall|i: int| 0 <= i < res.numbers@.len() ==> #[trigger] res.numbers@[i] <= iterations,
        forall|i: int| 0 <= i < res.powerballs@.len() ==> #[trigger] res.powerballs@[i] <= iterations,
        seq_sum(res.numbers@) == iterations * crate::draw::min_u32(
            (cfg.draw_count + cfg.supps) as u32,
            cfg.pool_max,
        ),
        seq_sum(res.powerballs@) == if cfg.has_powerball {
            iterations as nat
        } else {
            0
        },
{
    let pb_max: u32 = match cfg.powerball_max {
        Some(m) => m,
        None => 0,
    };
    let mut numbers = zeros((cfg.pool_max + 1) as usize);
    let mut powerballs = zeros((pb_max + 1) as usize);
    let ghost per_draw = crate::draw::min_u32((cfg.draw_count + cfg.supps) as u32, cfg.pool_max) as nat;
    let ghost mut draws: Seq<Seq<u32>> = Seq::empty();
    let ghost mut pbs: Seq<u32> = Seq::empty();
    proof {
        assert(numbers@ == Seq::new((cfg.pool_max + 1) as nat, |i: int| 0u64));
        assert(powerballs@ == Seq::new((pb_max + 1) as nat, |i: int| 0u64));
        lemma_sum_zeros((cfg.pool_max + 1) as nat);
        lemma_sum_zeros((pb_max + 1) as nat);
    }
    let mut t: u64 = 0;
    while t < iterations
        invariant
            cfg.drawable(),
            pb_max == pb_max_or_zero(*cfg),
            per_draw == crate::draw::min_u32((cfg.draw_count + cfg.supps) as u32, cfg.pool_max),
            t <= iterations,
            numbers@.len() == cfg.pool_max + 1,
            powerballs@.len() == pb_max + 1,
            numbers@[0] == 0,
            powerballs@[0] == 0,
            forall|i: int| 0 <= i < numbers@.len() ==> #[trigger] numbers@[i] <= t,
            forall|i: int| 0 <= i < powerballs@.len() ==> #[trigger] powerballs@[i] <= t,
            seq_sum(numbers@) == t * per_draw,
            seq_sum(powerballs@) == if cfg.has_powerball {
                t as nat
            } else {
                0
            },
            counts_of(*cfg, t as nat, draws, pbs, (FrequencySample { numbers, powerballs })),
        decreases iterations - t,
    {
        let (mut drawn_nums, mut drawn_supps) = crate::draw::generate_draw_with_supps(
            cfg.pool_max,
            cfg.draw_count,
            cfg.supps,
        );
        let ghost both = drawn_nums@ + drawn_supps@;
        drawn_nums.append(&mut drawn_supps);
        assert(drawn_nums@ == both);
        let ghost before = numbers@;
        proof {
            assert forall|j: int| 0 <= j < both.len() implies #[trigger] both[j] < numbers@.len()
                && numbers@[both[j] as int] < u64::MAX by {
                assert(1 <= both[j] <= cfg.pool_max);
            }
        }
        tally_draw(&mut numbers, drawn_nums.as_slice());
        proof {
            assert(!drawn(both, 0)) by {
                if drawn(both, 0) {
                    let k = choose|k: int| 0 <= k < both.len() && both[k] as int == 0;
                    assert(1 <= both[k]);
                }
            }
            let next = draws.push(both);
            assert(next.drop_last() == draws);
            assert(drawn_numbers(*cfg, both));
            assert forall|j: int| 0 <= j < next.len() implies drawn_numbers(*cfg, #[trigger] next[j]) by {
                if j < draws.len() {
                    assert(next[j] == draws[j]);
                }
            }
            assert forall|i: int| 0 <= i < numbers@.len() implies #[trigger] numbers@[i] == times_drawn(next, i) by {
                assert(before[i] == times_drawn(draws, i));
            }
            draws = next;
        }
        assert(t * per_draw + per_draw == (t + 1) * per_draw) by (nonlinear_arith);
        if cfg.has_powerball {
            let pb = crate::draw::random_powerball(pb_max);
            let c = powerballs[pb as usize];
            let ghost pb_before = powerballs@;
            proof {
                lemma_sum_update(powerballs@, pb as int, (c + 1) as u64);
            }
            powerballs[pb as usize] = c + 1;
            proof {
                let next = pbs.push(pb);
                assert(next.drop_last() == pbs);
                assert forall|j: int| 0 <= j < next.len() implies 1 <= #[trigger] next[j] <= pb_max_or_zero(*cfg) by {
                    if j < pbs.len() {
                        assert(next[j] == pbs[j]);
                    }
                }
                assert forall|i: int| 0 <= i < powerballs@.len() implies #[trigger] powerballs@[i] == times_pb(next, i) by {
                    assert(pb_before[i] == times_pb(pbs, i));
                }
                pbs = next;
            }
        }
        t = t + 1;
    }
    let res = FrequencySample { numbers, powerballs };
    assert(counts_of(*cfg, iterations as nat, draws, pbs, res));
    res
}

/// The count at `i`, or 0 beyond the table.
pub open spec fn count_at(s: Seq<u64>, i: int) -> int {
    if 0 <= i < s.len() {
        s[i] as int
    } else {
        0
    }
}

/// `new` is `old` with `add` added entry by entry (each count stopping at
/// `u64::MAX`), as long as the longer of the two.
pub open spec fn merged(old: Seq<u64>, add: Seq<u64>, new: Seq<u64>) -> bool {
    &&& new.len() == if old.len() < add.len() {
        add.len()
    } else {
        old.len()
    }
    &&& forall|i: int|
        0 <= i < new.len() ==> #[trigger] new[i] == capped(
            count_at(old, i) + count_at(add, i),
            u64::MAX as int,
        )
}

impl SimStats {
    /// Adds the counts of an analysis sample to the frequency tables,
    /// growing the number table when the sample's is longer.
    pub fn merge_frequencies(&mut self, sample: &FrequencySample)
        requires
            sample.powerballs@.len() <= old(self).pb_frequency@.len(),
        ensures
            merged(old(self).number_frequency@, sample.numbers@, final(self).number_frequency@),
            merged(old(self).pb_frequency@, sample.powerballs@, final(self).pb_frequency@),
            final(self).balance == old(self).balance,
            final(self).total_draws == old(self).total_draws,
            final(self).total_won == old(self).total_won,
            final(self).division_wins == old(self).division_wins,
            final(self).history == old(self).history,
    {
        add_counts(&mut self.number_frequency, &sample.numbers);
        add_counts(&mut self.pb_frequency, &sample.powerballs);
    }
}

fn add_counts(table: &mut Vec<u64>, add: &Vec<u64>)
    ensures
        merged(old(table)@, add@, final(table)@),
{
    let ghost start = table@;
    while table.len() < add.len()
        invariant
            start.len() <= table@.len(),
            table@.len() <= add@.len() || table@.len() == start.len(),
            forall|i: int| 0 <= i < table@.len() ==> #[trigger] table@[i] == count_at(start, i),
        decreases add.len() - table.len(),
    {
        table.push(0);
    }
    let ghost padded = table@;
    let mut i: usize = 0;
    while i < add.len()
        invariant
            padded.len() == table@.len(),
            add@.len() <= padded.len(),
            padded.len() == if start.len() < add@.len() {
                add@.len()
            } else {
                start.len()
            },
            forall|k: int| 0 <= k < padded.len() ==> #[trigger] padded[k] == count_at(start, k),
            i <= add@.len(),
            forall|k: int|
                0 <= k < table@.len() ==> #[trigger] table@[k] == if k < i {
                    capped(count_at(start, k) + count_at(add@, k), u64::MAX as int)
                } else {
                    count_at(start, k)
                },
        decreases add.len() - i,
    {
        let c = table[i];
        table[i] = c.saturating_add(add[i]);
        i = i + 1;
    }
}

} // verus!
