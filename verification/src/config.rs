//! Game definitions. Money is held as whole numbers of the smallest unit the
//! caller chooses (the desktop front end uses thousandths of a dollar).
use vstd::prelude::*;

verus! {

/// One prize division: how many main numbers, supplementaries and (for
/// Powerball games) whether the Powerball must match, and what it pays.
#[derive(Clone, Debug)]
pub struct PrizeRule {
    pub matches: usize,
    pub pb: bool,
    pub supps: usize,
    pub amount: u64,
}

/// The rules of one lotto game. `prizes[0]` is Division 1.
#[derive(Clone, Debug)]
pub struct GameConfig {
    pub pool_max: u32,
    pub draw_count: u32,
    pub cost_per_game: u64,
    pub has_powerball: bool,
    pub supps: u32,
    pub powerball_max: Option<u32>,
    pub prizes: Vec<PrizeRule>,
}

impl GameConfig {
    /// A draw of this game can be made: the main numbers fit in the pool,
    /// main and supplementary counts add up within a `u32`, and a Powerball
    /// game has at least one Powerball value.
    pub open spec fn drawable(&self) -> bool {
        &&& self.draw_count <= self.pool_max
        &&& self.draw_count + self.supps <= u32::MAX
        &&& self.has_powerball ==> (self.powerball_max matches Some(m) && m > 0)
    }
}

#[derive(Clone, Debug)]
pub struct GeneralConfig {
    pub starting_balance: u64,
}

/// Every configured game, by name, and the general settings.
#[derive(Clone, Debug)]
pub struct AppConfig {
    pub general: GeneralConfig,
    pub games: Vec<(String, GameConfig)>,
}

impl AppConfig {
    /// The game names, in the order the games are listed.
    pub open spec fn names(&self) -> Seq<Seq<char>> {
        self.games@.map_values(|g: (String, GameConfig)| g.0@)
    }

    /// No two games share a name, as in a configuration file's table of games.
    pub open spec fn names_distinct(&self) -> bool {
        self.names().no_duplicates()
    }
}

} // verus!
