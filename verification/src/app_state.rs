//! The state of the simulator front end that does not depend on the window:
//! the game list, the chosen tickets and the hot-number auto-pick.
use vstd::prelude::*;

use crate::config::{AppConfig, GameConfig};
use crate::hot::{
    count_of, in_cut, lemma_count_disjoint, lemma_count_ext, lemma_count_insert, lemma_count_none,
    lemma_hot_not_cold, lemma_pick_size,
};
use crate::random::{shuffle_values, thread_rng};
use crate::simulation::{zeros, SimStats};

verus! {

// ---------------------------------------------------------------------------
// Game names
// ---------------------------------------------------------------------------

/// `a` sorts before or equal to `b`, character by character (the order of
/// Rust strings).
pub open spec fn lex_le(a: Seq<char>, b: Seq<char>) -> bool
    decreases a.len(),
{
    if a.len() == 0 {
        true
    } else if b.len() == 0 {
        false
    } else if a[0] == b[0] {
        lex_le(a.drop_first(), b.drop_first())
    } else {
        (a[0] as u32) < (b[0] as u32)
    }
}

pub open spec fn string_views(v: Seq<String>) -> Seq<Seq<char>> {
    v.map_values(|s: String| s@)
}

/// `<[String]>::sort`: sorts the strings in Rust's string order (by bytes,
/// which for UTF-8 is the order of the characters' code points, a prefix
/// first). The result holds the same strings.
#[verifier::external_body]
fn sort_strings(v: &mut Vec<String>)
    ensures
        string_views(final(v)@).to_multiset() == string_views(old(v)@).to_multiset(),
        forall|i: int, j: int|
            0 <= i < j < final(v)@.len() ==> lex_le(#[trigger] final(v)@[i]@, #[trigger] final(v)@[j]@),
{
    v.sort();
}

/// The game names of `config`, in alphabetical order.
fn sorted_game_names(config: &AppConfig) -> (res: Vec<String>)
    ensures
        string_views(res@).to_multiset() == config.names().to_multiset(),
        forall|i: int, j: int| 0 <= i < j < res@.len() ==> lex_le(#[trigger] res@[i]@, #[trigger] res@[j]@),
{
    let mut names: Vec<String> = Vec::new();
    let mut i: usize = 0;
    while i < config.games.len()
        invariant
            i <= config.games@.len(),
            string_views(names@) == config.names().take(i as int),
        decreases config.games.len() - i,
    {
        let name = config.games[i].0.clone();
        assert(name@ == config.names()[i as int]);
        let ghost before = names@;
        names.push(name);
        assert(names@ == before.push(name));
        assert(string_views(before.push(name)) =~= string_views(before).push(name@));
        assert(config.names().take(i + 1) =~= config.names().take(i as int).push(config.names()[i as int]));
        i = i + 1;
    }
    assert(config.names().take(config.games@.len() as int) == config.names());
    sort_strings(&mut names);
    names
}

/// The position of the game called `name`, if there is one: the first.
pub fn find_game(config: &AppConfig, name: &String) -> (res: Option<usize>)
    ensures
        match res {
            Some(j) => j < config.games@.len() && config.games@[j as int].0@ == name@ && forall|k: int|
                0 <= k < j ==> config.games@[k].0@ != name@,
            None => !config.names().contains(name@),
        },
{
    let mut j: usize = 0;
    while j < config.games.len()
        invariant
            j <= config.games@.len(),
            forall|k: int| 0 <= k < j ==> config.games@[k].0@ != name@,
        decreases config.games.len() - j,
    {
        if config.games[j].0 == *name {
            return Some(j);
        }
        j = j + 1;
    }
    assert forall|k: int| 0 <= k < config.names().len() implies config.names()[k] != name@ by {
        assert(config.names()[k] == config.games@[k].0@);
    }
    None
}

/// The position of `name` in `keys`, if it is there: the first.
fn position_of(keys: &Vec<String>, name: &String) -> (res: Option<usize>)
    ensures
        match res {
            Some(j) => j < keys@.len() && keys@[j as int]@ == name@ && forall|k: int|
                0 <= k < j ==> keys@[k]@ != name@,
            None => forall|k: int| 0 <= k < keys@.len() ==> keys@[k]@ != name@,
        },
{
    let mut j: usize = 0;
    while j < keys.len()
        invariant
            j <= keys@.len(),
            forall|k: int| 0 <= k < j ==> keys@[k]@ != name@,
        decreases keys.len() - j,
    {
        if keys[j] == *name {
            return Some(j);
        }
        j = j + 1;
    }
    None
}

// ---------------------------------------------------------------------------
// Sizes of the shared statistics
// ---------------------------------------------------------------------------

/// The largest pool of the games (0 when there is none).
pub open spec fn max_pool(games: Seq<(String, GameConfig)>) -> nat
    decreases games.len(),
{
    if games.len() == 0 {
        0
    } else {
        let rest = max_pool(games.drop_last());
        let p = games.last().1.pool_max as nat;
        if p > rest {
            p
        } else {
            rest
        }
    }
}

/// The largest configured Powerball of the Powerball games (0 when there is none).
pub open spec fn max_powerball(games: Seq<(String, GameConfig)>) -> nat
    decreases games.len(),
{
    if games.len() == 0 {
        0
    } else {
        let rest = max_powerball(games.drop_last());
        let g = games.last().1;
        let p = if g.has_powerball {
            match g.powerball_max {
                Some(m) => m as nat,
                None => 0,
            }
        } else {
            0
        };
        if p > rest {
            p
        } else {
            rest
        }
    }
}

/// The most divisions of the games (0 when there is none).
pub open spec fn max_divisions(games: Seq<(String, GameConfig)>) -> nat
    decreases games.len(),
{
    if games.len() == 0 {
        0
    } else {
        let rest = max_divisions(games.drop_last());
        let p = games.last().1.prizes@.len();
        if p > rest {
            p
        } else {
            rest
        }
    }
}

// ---------------------------------------------------------------------------
// Hot numbers
// ---------------------------------------------------------------------------

/// How often `i` was drawn according to `freq` (0 beyond the table).
pub open spec fn freq_of(freq: Seq<u64>, i: int) -> nat {
    if 0 <= i < freq.len() {
        freq[i] as nat
    } else {
        0
    }
}

/// How many of the numbers `1..=n` were drawn more often than `v`.
pub open spec fn count_above(freq: Seq<u64>, n: nat, v: nat) -> nat
    decreases n,
{
    if n == 0 {
        0
    } else {
        count_above(freq, (n - 1) as nat, v) + if freq_of(freq, n as int) > v {
            1nat
        } else {
            0nat
        }
    }
}

/// How many of the numbers `1..=n` were drawn exactly `v` times.
pub open spec fn count_tied(freq: Seq<u64>, n: nat, v: nat) -> nat
    decreases n,
{
    if n == 0 {
        0
    } else {
        count_tied(freq, (n - 1) as nat, v) + if freq_of(freq, n as int) == v {
            1nat
        } else {
            0nat
        }
    }
}

/// Taking the numbers `1..=pool` from most to least drawn, a whole group of
/// equally drawn numbers at a time, the group of `i` fits within `pick`.
pub open spec fn surely_hot(freq: Seq<u64>, pool: nat, pick: nat, i: int) -> bool {
    let v = freq_of(freq, i);
    count_above(freq, pool, v) + count_tied(freq, pool, v) <= pick
}

/// At least `pick` numbers of `1..=pool` were drawn more often than `i`.
pub open spec fn surely_cold(freq: Seq<u64>, pool: nat, pick: nat, i: int) -> bool {
    count_above(freq, pool, freq_of(freq, i)) >= pick
}

/// `s` rises strictly.
pub open spec fn strictly_increasing(s: Seq<u32>) -> bool {
    forall|i: int, j: int| 0 <= i < j < s.len() ==> s[i] < s[j]
}

/// `b` in `1..=max` is drawn most often, and before any other number drawn as often.
pub open spec fn hottest_powerball(freq: Seq<u64>, max: nat, b: nat) -> bool {
    &&& 1 <= b <= max
    &&& forall|j: int| 1 <= j <= max ==> freq_of(freq, j) <= freq_of(freq, b as int)
    &&& forall|j: int| 1 <= j < b ==> freq_of(freq, j) < freq_of(freq, b as int)
}

/// How often each of the numbers `1..=n` was drawn.
fn frequencies_of(freq: &Vec<u64>, n: u32) -> (res: Vec<u64>)
    ensures
        res@.len() == n as nat + 1,
        res@[0] == 0,
        forall|i: int| 1 <= i <= n ==> #[trigger] res@[i] == freq_of(freq@, i),
{
    let mut res: Vec<u64> = Vec::new();
    res.push(0);
    let mut i: u64 = 1;
    while i <= n as u64
        invariant
            1 <= i <= n as u64 + 1,
            res@.len() == i,
            res@[0] == 0,
            forall|k: int| 1 <= k < i ==> #[trigger] res@[k] == freq_of(freq@, k),
        decreases n as u64 + 1 - i,
    {
        let f = if (i as usize) < freq.len() {
            freq[i as usize]
        } else {
            0
        };
        res.push(f);
        i = i + 1;
    }
    res
}

/// How many of `1..=n` in `table` are above, and how many equal to, `v`.
fn count_relative(table: &Vec<u64>, n: u32, v: u64) -> (res: (u64, u64))
    requires
        table@.len() == n as nat + 1,
    ensures
        res.0 == count_above(table@, n as nat, v as nat),
        res.1 == count_tied(table@, n as nat, v as nat),
        res.0 + res.1 <= n,
{
    let mut above: u64 = 0;
    let mut tied: u64 = 0;
    let mut i: u64 = 1;
    while i <= n as u64
        invariant
            table@.len() == n as nat + 1,
            1 <= i <= n as u64 + 1,
            above == count_above(table@, (i - 1) as nat, v as nat),
            tied == count_tied(table@, (i - 1) as nat, v as nat),
            above + tied <= i - 1,
        decreases n as u64 + 1 - i,
    {
        proof {
            lemma_counts_add_up(table@, (i - 1) as nat, v as nat);
        }
        let f = table[i as usize];
        if f > v {
            above = above + 1;
        } else if f == v {
            tied = tied + 1;
        }
        i = i + 1;
    }
    (above, tied)
}

/// `s` without `n`.
pub open spec fn without(s: Seq<u32>, n: u32) -> Seq<u32> {
    s.filter(|x: u32| x != n)
}

proof fn lemma_filter_subset(s: Seq<u32>, n: u32, i: int)
    requires
        0 <= i < without(s, n).len(),
    ensures
        s.contains(without(s, n)[i]),
    decreases s.len(),
{
    reveal(Seq::filter);
    let f = without(s, n);
    let g = without(s.drop_last(), n);
    if s.len() > 0 {
        if i < g.len() {
            assert(f[i] == g[i]);
            lemma_filter_subset(s.drop_last(), n, i);
            let k = choose|k: int| 0 <= k < s.drop_last().len() && s.drop_last()[k] == g[i];
            assert(s[k] == g[i]);
        } else {
            assert(f[i] == s.last());
            assert(s[s.len() - 1] == s.last());
        }
    }
}

proof fn lemma_filter_increasing(s: Seq<u32>, n: u32)
    requires
        strictly_increasing(s),
    ensures
        strictly_increasing(without(s, n)),
        forall|i: int| 0 <= i < without(s, n).len() ==> #[trigger] without(s, n)[i] <= s.last(),
    decreases s.len(),
{
    reveal(Seq::filter);
    if s.len() > 0 {
        let d = s.drop_last();
        assert(strictly_increasing(d));
        lemma_filter_increasing(d, n);
        let g = without(d, n);
        if d.len() > 0 {
            assert(d.last() < s.last());
        }
        assert forall|i: int| 0 <= i < g.len() implies #[trigger] g[i] < s.last() by {
            assert(g[i] <= d.last());
        }
    }
}

proof fn lemma_counts_add_up(freq: Seq<u64>, n: nat, v: nat)
    ensures
        count_above(freq, n, v) + count_tied(freq, n, v) <= n,
    decreases n,
{
    if n > 0 {
        lemma_counts_add_up(freq, (n - 1) as nat, v);
    }
}

/// The front end's choices that do not depend on the window.
pub struct LotteryApp {
    pub config: AppConfig,
    /// The game names, in alphabetical order.
    pub game_keys: Vec<String>,
    pub active_game_idx: usize,
    pub selected_numbers: Vec<Vec<u32>>,
    pub selected_powerball: Vec<Option<u32>>,
    pub is_powerhit: Vec<bool>,
    pub current_selected: Vec<u32>,
    pub current_pb: Option<u32>,
    pub current_powerhit: bool,
    pub auto_pick_count: usize,
    pub pre_it_exact: u64,
    pub custom_starting_balance: u64,
}

impl LotteryApp {
    /// The game list holds exactly the configured game names, sorted.
    pub open spec fn keys_listed(&self) -> bool {
        &&& string_views(self.game_keys@).to_multiset() == self.config.names().to_multiset()
        &&& forall|i: int, j: int|
            0 <= i < j < self.game_keys@.len() ==> lex_le(
                #[trigger] self.game_keys@[i]@,
                #[trigger] self.game_keys@[j]@,
            )
    }

    /// The selected game is one of the configured games.
    pub open spec fn has_active_game(&self) -> bool {
        &&& self.active_game_idx < self.game_keys@.len()
        &&& self.config.names().contains(self.game_keys@[self.active_game_idx as int]@)
    }

    /// The configuration of the selected game (the first of that name).
    pub open spec fn spec_active_config(&self) -> GameConfig {
        let name = self.game_keys@[self.active_game_idx as int]@;
        self.config.games@[self.config.names().index_of_first(name)->0].1
    }

    /// A new front end state for `config`: the game list in alphabetical
    /// order with the first game selected, no tickets, auto-pick of 7,
    /// a sample size of 1,000,000 and the configured bankroll.
    pub fn new(config: AppConfig) -> (res: Self)
        requires
            config.games@.len() > 0,
            config.names_distinct(),
        ensures
            res.config == config,
            res.keys_listed(),
            res.active_game_idx == 0,
            res.has_active_game(),
            res.selected_numbers@.len() == 0,
            res.selected_powerball@.len() == 0,
            res.is_powerhit@.len() == 0,
            res.current_selected@.len() == 0,
            res.current_pb is None,
            !res.current_powerhit,
            res.auto_pick_count == 7,
            res.pre_it_exact == 1_000_000,
            res.custom_starting_balance == config.general.starting_balance,
    {
        let initial_bal = config.general.starting_balance;
        let game_keys = sorted_game_names(&config);
        proof {
            string_views(game_keys@).to_multiset_ensures();
            config.names().to_multiset_ensures();
            assert(string_views(game_keys@).len() == game_keys@.len());
            assert(game_keys@.len() > 0);
            let first = string_views(game_keys@)[0];
            assert(first == game_keys@[0]@);
            assert(string_views(game_keys@).contains(first));
            assert(config.names().to_multiset().count(first) > 0);
        }
        LotteryApp {
            config,
            game_keys,
            active_game_idx: 0,
            selected_numbers: Vec::new(),
            selected_powerball: Vec::new(),
            is_powerhit: Vec::new(),
            current_selected: Vec::new(),
            current_pb: None,
            current_powerhit: false,
            auto_pick_count: 7,
            pre_it_exact: 1_000_000,
            custom_starting_balance: initial_bal,
        }
    }

    /// Statistics that fit every configured game: the configured bankroll,
    /// a tally as long as the most divisions and frequency tables as long as
    /// the largest pool and Powerball range.
    pub fn build_stats(config: &AppConfig) -> (res: SimStats)
        requires
            max_pool(config.games@) < usize::MAX,
            max_powerball(config.games@) < usize::MAX,
        ensures
            res.balance == config.general.starting_balance,
            res.total_draws == 0,
            res.total_won == 0,
            res.division_wins@ == Seq::new(max_divisions(config.games@), |i: int| 0u64),
            res.history@.len() == 0,
            res.number_frequency@ == Seq::new(max_pool(config.games@) + 1, |i: int| 0u64),
            res.pb_frequency@ == Seq::new(max_powerball(config.games@) + 1, |i: int| 0u64),
    {
        let mut pool: u32 = 0;
        let mut pb: u32 = 0;
        let mut divisions: usize = 0;
        let mut i: usize = 0;
        while i < config.games.len()
            invariant
                i <= config.games@.len(),
                pool == max_pool(config.games@.take(i as int)),
                pb == max_powerball(config.games@.take(i as int)),
                divisions == max_divisions(config.games@.take(i as int)),
            decreases config.games.len() - i,
        {
            let g = &config.games[i].1;
            assert(config.games@.take(i + 1).drop_last() == config.games@.take(i as int));
            if g.pool_max > pool {
                pool = g.pool_max;
            }
            if g.has_powerball {
                match g.powerball_max {
                    Some(m) => {
                        if m > pb {
                            pb = m;
                        }
                    },
                    None => {},
                }
            }
            if g.prizes.len() > divisions {
                divisions = g.prizes.len();
            }
            i = i + 1;
        }
        assert(config.games@.take(config.games@.len() as int) == config.games@);
        let division_wins = zeros(divisions);
        let number_frequency = zeros(pool as usize + 1);
        let pb_frequency = zeros(pb as usize + 1);
        assert(division_wins@ == Seq::new(max_divisions(config.games@), |i: int| 0u64));
        assert(number_frequency@ == Seq::new(max_pool(config.games@) + 1, |i: int| 0u64));
        assert(pb_frequency@ == Seq::new(max_powerball(config.games@) + 1, |i: int| 0u64));
        SimStats {
            balance: config.general.starting_balance as u128,
            total_draws: 0,
            total_won: 0,
            division_wins,
            history: Vec::new(),
            number_frequency,
            pb_frequency,
        }
    }

    /// Rebuilds the game list from the configuration, in alphabetical order,
    /// and selects the first game when the selection is past its end.
    pub fn initialize_game_list(&mut self)
        ensures
            final(self).keys_listed(),
            final(self).config == old(self).config,
            final(self).active_game_idx == if old(self).active_game_idx >= final(self).game_keys@.len() {
                0
            } else {
                old(self).active_game_idx
            },
            final(self).selected_numbers == old(self).selected_numbers,
            final(self).selected_powerball == old(self).selected_powerball,
            final(self).is_powerhit == old(self).is_powerhit,
            final(self).current_selected == old(self).current_selected,
            final(self).current_pb == old(self).current_pb,
            final(self).current_powerhit == old(self).current_powerhit,
            final(self).auto_pick_count == old(self).auto_pick_count,
            final(self).pre_it_exact == old(self).pre_it_exact,
            final(self).custom_starting_balance == old(self).custom_starting_balance,
    {
        self.game_keys = sorted_game_names(&self.config);
        if self.active_game_idx >= self.game_keys.len() {
            self.active_game_idx = 0;
        }
    }

    /// The configuration of the selected game.
    pub fn active_config(&self) -> (res: &GameConfig)
        requires
            self.has_active_game(),
        ensures
            *res == self.spec_active_config(),
    {
        let key = &self.game_keys[self.active_game_idx];
        match find_game(&self.config, key) {
            Some(j) => {
                proof {
                    let names = self.config.names();
                    names.index_of_first_ensures(key@);
                    assert(names[j as int] == key@);
                    let f = names.index_of_first(key@)->0;
                    assert(f <= j) by {
                        if f > j {
                            assert(names[j as int] == key@);
                        }
                    }
                    assert(f >= j) by {
                        if f < j {
                            assert(names[f] == self.config.games@[f].0@);
                        }
                    }
                }
                &self.config.games[j].1
            },
            None => {
                proof {
                    assert(false);
                }
                &self.config.games[0].1
            },
        }
    }

    /// The name of the selected game.
    pub fn active_game_name(&self) -> (res: &String)
        requires
            self.active_game_idx < self.game_keys@.len(),
        ensures
            res@ == self.game_keys@[self.active_game_idx as int]@,
    {
        &self.game_keys[self.active_game_idx]
    }

    /// Takes a new configuration: rebuilds the game list, keeps the selected
    /// game when the new configuration still has it (else the first), clears
    /// the tickets and picks, and returns fresh statistics for it.
    pub fn reload_config(&mut self, config: AppConfig) -> (res: SimStats)
        requires
            old(self).active_game_idx < old(self).game_keys@.len(),
            config.names_distinct(),
            max_pool(config.games@) < usize::MAX,
            max_powerball(config.games@) < usize::MAX,
        ensures
            final(self).config == config,
            final(self).keys_listed(),
            ({
                let previous = old(self).game_keys@[old(self).active_game_idx as int]@;
                let keys = final(self).game_keys@;
                if exists|k: int| 0 <= k < keys.len() && (#[trigger] keys[k])@ == previous {
                    &&& final(self).active_game_idx < keys.len()
                    &&& keys[final(self).active_game_idx as int]@ == previous
                    &&& forall|k: int| 0 <= k < final(self).active_game_idx ==> (#[trigger] keys[k])@ != previous
                } else {
                    final(self).active_game_idx == 0
                }
            }),
            final(self).selected_numbers@.len() == 0,
            final(self).selected_powerball@.len() == 0,
            final(self).is_powerhit@.len() == 0,
            final(self).current_selected@.len() == 0,
            final(self).current_pb is None,
            !final(self).current_powerhit,
            final(self).auto_pick_count == old(self).auto_pick_count,
            final(self).pre_it_exact == old(self).pre_it_exact,
            final(self).custom_starting_balance == old(self).custom_starting_balance,
            res.balance == config.general.starting_balance,
            res.total_draws == 0,
            res.total_won == 0,
            res.division_wins@ == Seq::new(max_divisions(config.games@), |i: int| 0u64),
            res.history@.len() == 0,
            res.number_frequency@ == Seq::new(max_pool(config.games@) + 1, |i: int| 0u64),
            res.pb_frequency@ == Seq::new(max_powerball(config.games@) + 1, |i: int| 0u64),
    {
        let ghost previous = self.game_keys@[self.active_game_idx as int]@;
        let previous_game = self.active_game_name().clone();
        assert(previous_game@ == previous);
        self.config = config;
        self.initialize_game_list();
        let found = position_of(&self.game_keys, &previous_game);
        self.active_game_idx = match found {
            Some(j) => j,
            None => 0,
        };
        proof {
            let keys = self.game_keys@;
            match found {
                Some(j) => {
                    assert(keys[j as int]@ == previous);
                },
                None => {
                    assert(!exists|k: int| 0 <= k < keys.len() && (#[trigger] keys[k])@ == previous);
                },
            }
        }
        self.selected_numbers = Vec::new();
        self.selected_powerball = Vec::new();
        self.is_powerhit = Vec::new();
        self.current_selected.clear();
        self.current_pb = None;
        self.current_powerhit = false;
        Self::build_stats(&self.config)
    }

    /// Adds `n` to the numbers being chosen, or takes it out when it is
    /// already there; a ticket holds at most [`MAX_TICKET_NUMBERS`]. The
    /// numbers stay in increasing order.
    pub fn toggle_current_number(&mut self, n: u32)
        requires
            strictly_increasing(old(self).current_selected@),
        ensures
            strictly_increasing(final(self).current_selected@),
            forall|x: u32|
                #[trigger] final(self).current_selected@.contains(x) == if x == n {
                    !old(self).current_selected@.contains(n)
                        && old(self).current_selected@.len() < MAX_TICKET_NUMBERS
                } else {
                    old(self).current_selected@.contains(x)
                },
            final(self).current_selected@.len() == if old(self).current_selected@.contains(n) {
                old(self).current_selected@.len() - 1
            } else if old(self).current_selected@.len() < MAX_TICKET_NUMBERS {
                old(self).current_selected@.len() + 1int
            } else {
                old(self).current_selected@.len() as int
            },
            final(self).config == old(self).config,
            final(self).game_keys == old(self).game_keys,
            final(self).active_game_idx == old(self).active_game_idx,
            final(self).selected_numbers == old(self).selected_numbers,
            final(self).selected_powerball == old(self).selected_powerball,
            final(self).is_powerhit == old(self).is_powerhit,
            final(self).current_pb == old(self).current_pb,
            final(self).current_powerhit == old(self).current_powerhit,
            final(self).auto_pick_count == old(self).auto_pick_count,
    {
        let old_sel = self.current_selected.clone();
        let ghost s = old_sel@;
        let mut pos: usize = 0;
        while pos < old_sel.len() && old_sel[pos] < n
            invariant
                old_sel@ == s,
                pos <= s.len(),
                forall|k: int| 0 <= k < pos ==> s[k] < n,
            decreases old_sel.len() - pos,
        {
            pos = pos + 1;
        }
        if pos < old_sel.len() && old_sel[pos] == n {
            let mut next: Vec<u32> = Vec::new();
            let mut k: usize = 0;
            while k < old_sel.len()
                invariant
                    old_sel@ == s,
                    strictly_increasing(s),
                    pos < s.len(),
                    s[pos as int] == n,
                    k <= s.len(),
                    next@ == without(s.take(k as int), n),
                    next@.len() == if k > pos {
                        k - 1
                    } else {
                        k as int
                    },
                decreases old_sel.len() - k,
            {
                assert(k != pos ==> s[k as int] != n) by {
                    if k < pos {
                        assert(s[k as int] < s[pos as int]);
                    } else if k > pos {
                        assert(s[pos as int] < s[k as int]);
                    }
                }
                proof {
                    reveal(Seq::filter);
                    assert(s.take(k + 1).drop_last() == s.take(k as int));
                }
                if old_sel[k] != n {
                    next.push(old_sel[k]);
                }
                k = k + 1;
            }
            proof {
                assert(s.take(s.len() as int) == s);
                broadcast use vstd::seq_lib::group_filter_ensures;

                let f = without(s, n);
                assert forall|x: u32| #[trigger] f.contains(x) == (x != n && s.contains(x)) by {
                    if x != n && s.contains(x) {
                        let i = choose|i: int| 0 <= i < s.len() && s[i] == x;
                        assert(f.contains(s[i]));
                    }
                    if f.contains(x) {
                        let i = choose|i: int| 0 <= i < f.len() && f[i] == x;
                        assert((|y: u32| y != n)(f[i]));
                        lemma_filter_subset(s, n, i);
                    }
                }
                lemma_filter_increasing(s, n);
            }
            self.current_selected = next;
        } else {
            proof {
                assert(!s.contains(n)) by {
                    if s.contains(n) {
                        let i = choose|i: int| 0 <= i < s.len() && s[i] == n;
                        if i < pos {
                        } else if i > pos {
                            assert(s[pos as int] < s[i]);
                        }
                    }
                }
            }
            if old_sel.len() < MAX_TICKET_NUMBERS {
                let mut next = old_sel.clone();
                next.insert(pos, n);
                proof {
                    s.insert_ensures(pos as int, n);
                    let t = next@;
                    assert forall|p: int, q: int| 0 <= p < q < t.len() implies t[p] < t[q] by {
                        if q < pos {
                        } else if q == pos {
                        } else if p < pos {
                            assert(t[q] == s[q - 1]);
                            assert(s[p] < n || p < q - 1);
                        } else if p == pos {
                            assert(t[q] == s[q - 1]);
                            assert(!(s[pos as int] < n));
                            assert(s[pos as int] != n);
                        } else {
                            assert(t[q] == s[q - 1] && t[p] == s[p - 1]);
                        }
                    }
                    assert forall|x: u32| #[trigger] t.contains(x) == (x == n || s.contains(x)) by {
                        if t.contains(x) {
                            let i = choose|i: int| 0 <= i < t.len() && t[i] == x;
                            if i < pos {
                                assert(s[i] == x);
                            } else if i > pos {
                                assert(s[i - 1] == x);
                            }
                        }
                        if s.contains(x) {
                            let i = choose|i: int| 0 <= i < s.len() && s[i] == x;
                            if i < pos {
                                assert(t[i] == x);
                            } else {
                                assert(t[i + 1] == x);
                            }
                        }
                        if x == n {
                            assert(t[pos as int] == n);
                        }
                    }
                }
                self.current_selected = next;
            }
        }
    }

    /// Turns the numbers being chosen, with the chosen Powerball and
    /// PowerHit, into a ticket, and starts a fresh choice.
    pub fn add_current_ticket(&mut self)
        ensures
            final(self).selected_numbers@ == old(self).selected_numbers@.push(old(self).current_selected),
            final(self).selected_powerball@ == old(self).selected_powerball@.push(old(self).current_pb),
            final(self).is_powerhit@ == old(self).is_powerhit@.push(old(self).current_powerhit),
            final(self).current_selected@.len() == 0,
            final(self).current_pb == old(self).current_pb,
            final(self).current_powerhit == old(self).current_powerhit,
            final(self).config == old(self).config,
            final(self).game_keys == old(self).game_keys,
            final(self).active_game_idx == old(self).active_game_idx,
    {
        let mut ticket: Vec<u32> = Vec::new();
        std::mem::swap(&mut ticket, &mut self.current_selected);
        self.selected_numbers.push(ticket);
        self.selected_powerball.push(self.current_pb);
        self.is_powerhit.push(self.current_powerhit);
    }

    /// Picks the most drawn numbers of the selected game from `stats`.
    ///
    /// In a Powerball game the most drawn Powerball (the lowest of equals)
    /// becomes the pick when it was drawn at all. Then, unless the auto-pick
    /// count is 0, the numbers `1..=pool_max` are taken from most to least
    /// drawn, a group of equally drawn numbers at a time, as long as the
    /// group fits in the count; the group that does not fit fills the rest
    /// with numbers chosen from it at random. The pick is kept in increasing
    /// order.
    pub fn select_hot_numbers(&mut self, stats: &SimStats)
        requires
            old(self).has_active_game(),
            old(self).spec_active_config().has_powerball ==> old(self).spec_active_config().powerball_max is Some,
        ensures
            ({
                let cfg = old(self).spec_active_config();
                let pool = cfg.pool_max as nat;
                let pick = old(self).auto_pick_count as nat;
                let sel = final(self).current_selected@;
                &&& final(self).config == old(self).config
                &&& final(self).game_keys == old(self).game_keys
                &&& final(self).active_game_idx == old(self).active_game_idx
                &&& final(self).selected_numbers == old(self).selected_numbers
                &&& final(self).selected_powerball == old(self).selected_powerball
                &&& final(self).is_powerhit == old(self).is_powerhit
                &&& final(self).current_powerhit == old(self).current_powerhit
                &&& final(self).auto_pick_count == old(self).auto_pick_count
                &&& final(self).pre_it_exact == old(self).pre_it_exact
                &&& final(self).custom_starting_balance == old(self).custom_starting_balance
                // The Powerball.
                &&& if cfg.has_powerball && exists|b: nat|
                    hottest_powerball(stats.pb_frequency@, cfg.powerball_max->0 as nat, b) && freq_of(
                        stats.pb_frequency@,
                        b as int,
                    ) > 0 {
                    final(self).current_pb matches Some(b) && hottest_powerball(
                        stats.pb_frequency@,
                        cfg.powerball_max->0 as nat,
                        b as nat,
                    )
                } else {
                    final(self).current_pb == old(self).current_pb
                }
                // The numbers.
                &&& pick == 0 ==> final(self).current_selected == old(self).current_selected
                &&& pick > 0 ==> {
                    &&& strictly_increasing(sel)
                    &&& forall|k: int| 0 <= k < sel.len() ==> 1 <= #[trigger] sel[k] <= pool
                    &&& forall|i: int|
                        1 <= i <= pool && surely_hot(stats.number_frequency@, pool, pick, i)
                            ==> sel.contains(i as u32)
                    &&& forall|k: int|
                        0 <= k < sel.len() ==> !surely_cold(
                            stats.number_frequency@,
                            pool,
                            pick,
                            #[trigger] sel[k] as int,
                        )
                    &&& sel.len() == if pick <= pool {
                        pick
                    } else {
                        pool
                    }
                }
            }),
    {
        let ghost cfg = self.spec_active_config();
        let active_cfg = self.active_config();
        let pool_limit = active_cfg.pool_max;
        let has_powerball = active_cfg.has_powerball;
        let pb_max: u32 = match active_cfg.powerball_max {
            Some(m) => m,
            None => 0,
        };
        let pick = self.auto_pick_count;
        if has_powerball {
            let hot = hottest(&stats.pb_frequency, pb_max);
            match hot {
                Some(b) => {
                    let f = if (b as usize) < stats.pb_frequency.len() {
                        stats.pb_frequency[b as usize]
                    } else {
                        0
                    };
                    if f > 0 {
                        self.current_pb = Some(b);
                    } else {
                        proof {
                            assert forall|c: nat|
                                !(hottest_powerball(stats.pb_frequency@, pb_max as nat, c) && freq_of(
                                    stats.pb_frequency@,
                                    c as int,
                                ) > 0) by {
                                if hottest_powerball(stats.pb_frequency@, pb_max as nat, c) {
                                    assert(freq_of(stats.pb_frequency@, c as int) <= freq_of(
                                        stats.pb_frequency@,
                                        b as int,
                                    ));
                                }
                            }
                        }
                    }
                },
                None => {},
            }
        }
        if pick == 0 {
            return;
        }
        let table = frequencies_of(&stats.number_frequency, pool_limit);
        let ghost freq = stats.number_frequency@;
        let ghost pool = pool_limit as nat;
        let ghost hotp = |j: int| surely_hot(freq, pool, pick as nat, j);
        let ghost cutp = |j: int| in_cut(freq, pool, pick as nat, j);
        // Classify each number: surely hot, in the group that does not fit, or cold.
        let mut sure: Vec<bool> = Vec::new();
        let mut cut: Vec<u32> = Vec::new();
        sure.push(false);
        let mut i: u64 = 1;
        while i <= pool_limit as u64
            invariant
                pool_limit == cfg.pool_max,
                pool == pool_limit as nat,
                pick > 0,
                hotp == (|j: int| surely_hot(freq, pool, pick as nat, j)),
                cutp == (|j: int| in_cut(freq, pool, pick as nat, j)),
                table@.len() == pool_limit as nat + 1,
                forall|k: int| 1 <= k <= pool_limit ==> #[trigger] table@[k] == freq_of(freq, k),
                1 <= i <= pool_limit as u64 + 1,
                sure@.len() == i,
                !sure@[0],
                forall|k: int| 1 <= k < i ==> #[trigger] sure@[k] == hotp(k),
                forall|k: int| 0 <= k < cut@.len() ==> 1 <= #[trigger] cut@[k] < i,
                forall|k: int| 0 <= k < cut@.len() ==> cutp(#[trigger] cut@[k] as int),
                strictly_increasing(cut@),
                cut@.len() == count_of((i - 1) as nat, cutp),
            decreases pool_limit as u64 + 1 - i,
        {
            let v = table[i as usize];
            let (above, tied) = count_relative(&table, pool_limit, v);
            proof {
                lemma_table_counts_at(freq, table@, pool_limit as nat, pool_limit as nat, v as nat);
            }
            assert(v == freq_of(freq, i as int));
            let ghost old_cut = cut@;
            if above + tied <= pick as u64 {
                sure.push(true);
            } else {
                sure.push(false);
                if above < pick as u64 {
                    cut.push(i as u32);
                    assert forall|p: int, q: int| 0 <= p < q < cut@.len() implies cut@[p] < cut@[q] by {
                        if q < old_cut.len() {
                            assert(cut@[p] == old_cut[p] && cut@[q] == old_cut[q]);
                        } else if p < old_cut.len() {
                            assert(cut@[p] == old_cut[p]);
                        }
                    }
                }
            }
            i = i + 1;
        }
        // How many are surely hot.
        let mut definite: usize = 0;
        let mut k: u64 = 1;
        while k <= pool_limit as u64
            invariant
                sure@.len() == pool_limit as nat + 1,
                pool == pool_limit as nat,
                forall|q: int| 1 <= q <= pool_limit ==> #[trigger] sure@[q] == hotp(q),
                1 <= k <= pool_limit as u64 + 1,
                definite == count_of((k - 1) as nat, hotp),
                definite <= k - 1,
            decreases pool_limit as u64 + 1 - k,
        {
            if sure[k as usize] {
                definite = definite + 1;
            }
            k = k + 1;
        }
        proof {
            lemma_pick_size(freq, pool, pick as nat);
        }
        let remaining = pick - definite;
        // Choose at random from the group that does not fit.
        let ghost cut_before = cut@;
        let mut rng = thread_rng();
        shuffle_values(&mut cut, &mut rng);
        proof {
            cut_before.to_multiset_ensures();
            cut@.to_multiset_ensures();
            assert forall|p: int| 0 <= p < cut@.len() implies cut_before.contains(#[trigger] cut@[p]) by {
                assert(cut@.to_multiset().count(cut@[p]) > 0);
            }
            cut_before.lemma_multiset_has_no_duplicates();
            cut@.lemma_multiset_has_no_duplicates_conv();
        }
        let mut chosen: Vec<bool> = Vec::new();
        let mut c: u64 = 0;
        while c <= pool_limit as u64
            invariant
                0 <= c <= pool_limit as u64 + 1,
                chosen@.len() == c,
                forall|p: int| 0 <= p < c ==> !#[trigger] chosen@[p],
            decreases pool_limit as u64 + 1 - c,
        {
            chosen.push(false);
            c = c + 1;
        }
        proof {
            lemma_count_none(pool, |q: int| chosen@[q]);
        }
        let mut taken: usize = 0;
        while taken < remaining && taken < cut.len()
            invariant
                chosen@.len() == pool_limit as nat + 1,
                pool == pool_limit as nat,
                cutp == (|j: int| in_cut(freq, pool, pick as nat, j)),
                taken <= cut@.len(),
                taken <= remaining,
                cut@.no_duplicates(),
                forall|p: int| 0 <= p < cut@.len() ==> cut_before.contains(#[trigger] cut@[p]),
                forall|p: int| 0 <= p < cut_before.len() ==> 1 <= #[trigger] cut_before[p] <= pool_limit,
                forall|p: int| 0 <= p < cut_before.len() ==> cutp(#[trigger] cut_before[p] as int),
                forall|q: int|
                    0 <= q < chosen@.len() ==> (#[trigger] chosen@[q] <==> exists|p: int|
                        0 <= p < taken && cut@[p] as int == q),
                count_of(pool, |q: int| chosen@[q]) == taken,
            decreases cut.len() - taken,
        {
            let n = cut[taken];
            assert(cut_before.contains(n));
            let ghost before = chosen@;
            assert(!before[n as int]) by {
                if before[n as int] {
                    let p = choose|p: int| 0 <= p < taken && cut@[p] as int == n as int;
                    assert(cut@[p] == cut@[taken as int]);
                }
            }
            chosen.set(n as usize, true);
            proof {
                let beforep = |q: int| before[q];
                let nowp = |q: int| chosen@[q];
                let addedp = |q: int| beforep(q) || q == n as int;
                lemma_count_insert(pool, beforep, n as int);
                lemma_count_ext(pool, |q: int| beforep(q) || q == n as int, addedp);
                assert forall|q: int| 1 <= q <= pool implies #[trigger] nowp(q) == addedp(q) by {
                    assert(chosen@[q] == before.update(n as int, true)[q]);
                }
                lemma_count_ext(pool, nowp, addedp);
                assert forall|q: int|
                    0 <= q < chosen@.len() implies (#[trigger] chosen@[q] <==> exists|p: int|
                    0 <= p < taken + 1 && cut@[p] as int == q) by {
                    if q == n as int {
                        assert(cut@[taken as int] as int == q);
                    } else if chosen@[q] {
                        assert(before[q]);
                    } else if exists|p: int| 0 <= p < taken + 1 && cut@[p] as int == q {
                        let p = choose|p: int| 0 <= p < taken + 1 && cut@[p] as int == q;
                        assert(p < taken);
                    }
                }
            }
            taken = taken + 1;
        }
        // Every chosen number is in the group that does not fit.
        assert forall|q: int| 1 <= q <= pool_limit && #[trigger] chosen@[q] implies cutp(q) by {
            let p = choose|p: int| 0 <= p < taken && cut@[p] as int == q;
            assert(cut_before.contains(cut@[p]));
            let r = choose|r: int| 0 <= r < cut_before.len() && cut_before[r] == cut@[p];
            assert(cutp(cut_before[r] as int));
        }
        let ghost chosenp = |q: int| chosen@[q];
        let ghost selp = |q: int| hotp(q) || chosenp(q);
        proof {
            assert(cut_before.len() == count_of(pool, cutp));
            assert(cut@.len() == cut_before.len());
            assert(taken == if remaining <= cut@.len() { remaining } else { cut@.len() as usize });
            assert forall|q: int| 1 <= q <= pool implies !(#[trigger] hotp(q) && chosenp(q)) by {
                if chosenp(q) {
                    assert(chosen@[q]);
                    assert(cutp(q));
                }
            }
            lemma_count_disjoint(pool, hotp, chosenp);
            lemma_count_ext(pool, |j: int| hotp(j) || chosenp(j), selp);
            assert(count_of(pool, chosenp) == taken);
        }
        // The pick, in increasing order.
        let mut selection: Vec<u32> = Vec::new();
        let mut j: u64 = 1;
        while j <= pool_limit as u64
            invariant
                sure@.len() == pool_limit as nat + 1,
                chosen@.len() == pool_limit as nat + 1,
                pool == pool_limit as nat,
                hotp == (|j: int| surely_hot(freq, pool, pick as nat, j)),
                cutp == (|j: int| in_cut(freq, pool, pick as nat, j)),
                forall|k: int| 1 <= k <= pool_limit ==> #[trigger] sure@[k] == hotp(k),
                forall|q: int| 1 <= q <= pool_limit && #[trigger] chosen@[q] ==> cutp(q),
                1 <= j <= pool_limit as u64 + 1,
                pick > 0,
                pool_limit as nat == cfg.pool_max,
                forall|p: int| 0 <= p < selection@.len() ==> 1 <= #[trigger] selection@[p] < j,
                strictly_increasing(selection@),
                forall|p: int|
                    0 <= p < selection@.len() ==> !surely_cold(freq, pool, pick as nat, #[trigger] selection@[p] as int),
                forall|q: int|
                    1 <= q < j && surely_hot(freq, pool, pick as nat, q) ==> selection@.contains(q as u32),
                selp == (|q: int| hotp(q) || chosenp(q)),
                chosenp == (|q: int| chosen@[q]),
                selection@.len() == count_of((j - 1) as nat, selp),
            decreases pool_limit as u64 + 1 - j,
        {
            let ghost old_sel = selection@;
            if sure[j as usize] || chosen[j as usize] {
                proof {
                    if sure@[j as int] {
                        lemma_hot_not_cold(freq, pool, pick as nat, j as int);
                    }
                }
                selection.push(j as u32);
                assert(selection@[old_sel.len() as int] == j as u32);
                assert forall|q: int|
                    1 <= q < j + 1 && surely_hot(freq, pool, pick as nat, q) implies selection@.contains(q as u32) by {
                    if q < j {
                        let p = choose|p: int| 0 <= p < old_sel.len() && old_sel[p] == q as u32;
                        assert(selection@[p] == q as u32);
                    }
                }
            }
            j = j + 1;
        }
        self.current_selected = selection;
    }
}

/// The most numbers a ticket can hold.
pub const MAX_TICKET_NUMBERS: usize = 20;

/// The largest sample the frequency analysis takes.
pub const MAX_SAMPLE_SIZE: u64 = 1_000_000_000;

/// A requested sample size as the analysis takes it: at least one draw and
/// at most [`MAX_SAMPLE_SIZE`].
pub fn clamp_sample_size(requested: u64) -> (res: u64)
    ensures
        res == if requested < 1 {
            1
        } else if requested > MAX_SAMPLE_SIZE {
            MAX_SAMPLE_SIZE
        } else {
            requested
        },
{
    if requested < 1 {
        1
    } else if requested > MAX_SAMPLE_SIZE {
        MAX_SAMPLE_SIZE
    } else {
        requested
    }
}

/// A ticket can be played: it has at least a line's worth of numbers and,
/// in a Powerball game, a Powerball or PowerHit.
pub open spec fn spec_ticket_ready(cfg: GameConfig, numbers: Seq<u32>, pb: Option<u32>, powerhit: bool) -> bool {
    &&& numbers.len() >= cfg.draw_count
    &&& (!cfg.has_powerball || powerhit || pb is Some)
}

/// Whether a ticket can be played (see [`spec_ticket_ready`]).
pub fn ticket_ready(cfg: &GameConfig, numbers: &Vec<u32>, pb: Option<u32>, powerhit: bool) -> (res: bool)
    ensures
        res == spec_ticket_ready(*cfg, numbers@, pb, powerhit),
{
    numbers.len() >= cfg.draw_count as usize && (!cfg.has_powerball || powerhit || pb.is_some())
}

/// The least of the counts of `1..=max` (0 when `max` is 0).
pub open spec fn least_count(freq: Seq<u64>, max: nat) -> nat
    decreases max,
{
    if max == 0 {
        0
    } else if max == 1 {
        freq_of(freq, 1)
    } else {
        let rest = least_count(freq, (max - 1) as nat);
        if freq_of(freq, max as int) < rest {
            freq_of(freq, max as int)
        } else {
            rest
        }
    }
}

proof fn lemma_least_count_is_least(freq: Seq<u64>, max: nat, i: int)
    requires
        1 <= i <= max,
    ensures
        least_count(freq, max) <= freq_of(freq, i),
    decreases max,
{
    if i < max {
        lemma_least_count_is_least(freq, (max - 1) as nat, i);
    }
}

/// The least count of the numbers `1..=max` is the count of one of them
/// (never the unused slot 0, unless it is one of them), and no count of
/// `1..=max` is below it.
pub proof fn lemma_least_count_is_minimum(freq: Seq<u64>, max: nat)
    requires
        max > 0,
    ensures
        exists|j: int| 1 <= j <= max && least_count(freq, max) == #[trigger] freq_of(freq, j),
        forall|i: int| 1 <= i <= max ==> least_count(freq, max) <= #[trigger] freq_of(freq, i),
    decreases max,
{
    assert forall|i: int| 1 <= i <= max implies least_count(freq, max) <= #[trigger] freq_of(freq, i) by {
        lemma_least_count_is_least(freq, max, i);
    }
    if max == 1 {
        assert(least_count(freq, max) == freq_of(freq, 1));
    } else {
        lemma_least_count_is_minimum(freq, (max - 1) as nat);
        if freq_of(freq, max as int) < least_count(freq, (max - 1) as nat) {
            assert(least_count(freq, max) == freq_of(freq, max as int));
        } else {
            let j = choose|j: int| 1 <= j <= max - 1 && least_count(freq, (max - 1) as nat) == #[trigger] freq_of(freq, j);
            assert(least_count(freq, max) == freq_of(freq, j));
        }
    }
}

/// For the hot/cold chart: how much more often each of `1..=max` was drawn
/// than the least drawn of them; entry `i - 1` is for number `i`. So every
/// entry is its number's count less one common base that is no more than
/// any count of `1..=max`, and the least drawn number's entry is 0.
pub fn frequency_variance(freq: &Vec<u64>, max: u32) -> (res: Vec<u64>)
    ensures
        res@.len() == max,
        forall|k: int|
            0 <= k < max ==> #[trigger] res@[k] == freq_of(freq@, k + 1) - least_count(freq@, max as nat),
        max > 0 ==> exists|k: int| 0 <= k < max && #[trigger] res@[k] == 0,
        forall|k: int, m: int|
            0 <= k < max && 0 <= m < max ==> #[trigger] res@[k] - #[trigger] res@[m] == freq_of(freq@, k + 1)
                - freq_of(freq@, m + 1),
        forall|k: int| 0 <= k < max ==> #[trigger] res@[k] <= freq_of(freq@, k + 1),
{
    let mut least: u64 = 0;
    let mut i: u64 = 1;
    while i <= max as u64
        invariant
            1 <= i <= max as u64 + 1,
            least == least_count(freq@, (i - 1) as nat),
        decreases max as u64 + 1 - i,
    {
        let f = if (i as usize) < freq.len() {
            freq[i as usize]
        } else {
            0
        };
        if i == 1 || f < least {
            least = f;
        }
        i = i + 1;
    }
    let mut res: Vec<u64> = Vec::new();
    let mut j: u64 = 1;
    while j <= max as u64
        invariant
            1 <= j <= max as u64 + 1,
            least == least_count(freq@, max as nat),
            res@.len() == j - 1,
            forall|k: int|
                0 <= k < j - 1 ==> #[trigger] res@[k] == freq_of(freq@, k + 1) - least_count(freq@, max as nat),
        decreases max as u64 + 1 - j,
    {
        let f = if (j as usize) < freq.len() {
            freq[j as usize]
        } else {
            0
        };
        proof {
            lemma_least_count_is_least(freq@, max as nat, j as int);
        }
        res.push(f - least);
        j = j + 1;
    }
    proof {
        if max > 0 {
            lemma_least_count_is_minimum(freq@, max as nat);
            let j = choose|j: int| 1 <= j <= max && least_count(freq@, max as nat) == #[trigger] freq_of(freq@, j);
            assert(res@[j - 1] == 0);
        }
    }
    res
}

proof fn lemma_table_counts_at(freq: Seq<u64>, table: Seq<u64>, n: nat, m: nat, v: nat)
    requires
        table.len() == n + 1,
        m <= n,
        forall|k: int| 1 <= k <= n ==> #[trigger] table[k] == freq_of(freq, k),
    ensures
        count_above(table, m, v) == count_above(freq, m, v),
        count_tied(table, m, v) == count_tied(freq, m, v),
    decreases m,
{
    if m > 0 {
        lemma_table_counts_at(freq, table, n, (m - 1) as nat, v);
        assert(freq_of(table, m as int) == freq_of(freq, m as int));
    }
}

/// The lowest of `1..=max` drawn most often, if `max > 0`.
fn hottest(freq: &Vec<u64>, max: u32) -> (res: Option<u32>)
    ensures
        max == 0 <==> res is None,
        res matches Some(b) ==> hottest_powerball(freq@, max as nat, b as nat),
{
    if max == 0 {
        return None;
    }
    let mut best: u32 = 1;
    let mut best_f: u64 = if 1 < freq.len() {
        freq[1]
    } else {
        0
    };
    let mut i: u64 = 2;
    while i <= max as u64
        invariant
            1 <= best <= max,
            2 <= i <= max as u64 + 1,
            best < i,
            best_f == freq_of(freq@, best as int),
            forall|j: int| 1 <= j < i ==> freq_of(freq@, j) <= best_f,
            forall|j: int| 1 <= j < best ==> freq_of(freq@, j) < best_f,
        decreases max as u64 + 1 - i,
    {
        let f = if (i as usize) < freq.len() {
            freq[i as usize]
        } else {
            0
        };
        if f > best_f {
            best = i as u32;
            best_f = f;
        }
        i = i + 1;
    }
    Some(best)
}

} // verus!
