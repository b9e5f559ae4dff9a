//! Random draws: main numbers, supplementaries and the Powerball.
use vstd::prelude::*;

use crate::config::GameConfig;
use crate::random::{random_u32, shuffle_values, thread_rng};

verus! {

/// Every value of `s` lies in `1..=max`.
pub open spec fn all_in_pool(s: Seq<u32>, max: u32) -> bool {
    forall|i: int| 0 <= i < s.len() ==> 1 <= #[trigger] s[i] <= max
}

pub open spec fn min_u32(a: u32, b: u32) -> u32 {
    if a <= b {
        a
    } else {
        b
    }
}

proof fn lemma_same_multiset(s: Seq<u32>, t: Seq<u32>)
    requires
        s.to_multiset() == t.to_multiset(),
        s.no_duplicates(),
    ensures
        t.no_duplicates(),
        forall|x: u32| t.contains(x) ==> s.contains(x),
{
    s.to_multiset_ensures();
    t.to_multiset_ensures();
    s.lemma_multiset_has_no_duplicates();
    t.lemma_multiset_has_no_duplicates_conv();
    assert forall|x: u32| t.contains(x) implies s.contains(x) by {
        assert(t.to_multiset().count(x) > 0);
    }
}

/// Draws `draw_count` distinct numbers from `1..=pool_max` in random order
/// (all of the pool when it is smaller).
pub fn generate_draw_numbers(pool_max: u32, draw_count: u32) -> (res: Vec<u32>)
    ensures
        res@.len() == min_u32(draw_count, pool_max),
        res@.no_duplicates(),
        all_in_pool(res@, pool_max),
{
    let mut pool: Vec<u32> = Vec::new();
    let mut n: u64 = 1;
    while n <= pool_max as u64
        invariant
            1 <= n <= pool_max as u64 + 1,
            pool@.len() == n - 1,
            forall|i: int| 0 <= i < pool@.len() ==> #[trigger] pool@[i] == i + 1,
        decreases pool_max as u64 + 1 - n,
    {
        pool.push(n as u32);
        n = n + 1;
    }
    let ghost ordered = pool@;
    assert(ordered.no_duplicates());
    let mut rng = thread_rng();
    shuffle_values(&mut pool, &mut rng);
    proof {
        lemma_same_multiset(ordered, pool@);
        assert forall|i: int| 0 <= i < pool@.len() implies 1 <= #[trigger] pool@[i] <= pool_max by {
            assert(ordered.contains(pool@[i]));
        }
    }
    assert(pool@.len() == pool_max) by {
        ordered.to_multiset_ensures();
        pool@.to_multiset_ensures();
    }
    let ghost shuffled = pool@;
    pool.truncate(draw_count as usize);
    assert forall|i: int, j: int| 0 <= i < j < pool@.len() implies pool@[i] != pool@[j] by {
        assert(pool@[i] == shuffled[i] && pool@[j] == shuffled[j]);
    }
    assert forall|i: int| 0 <= i < pool@.len() implies 1 <= #[trigger] pool@[i] <= pool_max by {
        assert(pool@[i] == shuffled[i]);
    }
    pool
}

/// Draws the main numbers and, after them from the same pool, the
/// supplementaries: `draw_count` main numbers and up to `supps` more.
pub fn generate_draw_with_supps(pool_max: u32, draw_count: u32, supps: u32) -> (res: (Vec<u32>, Vec<u32>))
    requires
        draw_count <= pool_max,
        draw_count + supps <= u32::MAX,
    ensures
        res.0@.len() == draw_count,
        res.1@.len() == min_u32((draw_count + supps) as u32, pool_max) - draw_count,
        (res.0@ + res.1@).no_duplicates(),
        all_in_pool(res.0@ + res.1@, pool_max),
{
    let mut main = generate_draw_numbers(pool_max, draw_count + supps);
    let ghost all = main@;
    let supp = main.split_off(draw_count as usize);
    assert(main@ + supp@ == all);
    (main, supp)
}

/// The Powerball that the random value `r` stands for: `r % powerball_max + 1`.
pub fn powerball_from(r: u32, powerball_max: u32) -> (res: u32)
    requires
        powerball_max > 0,
    ensures
        res == r % powerball_max + 1,
        1 <= res <= powerball_max,
{
    r % powerball_max + 1
}

/// A random Powerball in `1..=powerball_max`: a random `u32` taken modulo
/// `powerball_max`, plus one. Which value comes up rests on chance.
pub fn random_powerball(powerball_max: u32) -> (res: u32)
    requires
        powerball_max > 0,
    ensures
        1 <= res <= powerball_max,
{
    powerball_from(random_u32(), powerball_max)
}

/// The outcome of one draw.
#[derive(Clone, Debug)]
pub struct Draw {
    pub numbers: Vec<u32>,
    pub supps: Vec<u32>,
    pub powerball: Option<u32>,
}

/// `draw` is a possible draw of `cfg`.
pub open spec fn valid_draw(cfg: GameConfig, draw: Draw) -> bool {
    &&& draw.numbers@.len() == cfg.draw_count
    &&& draw.supps@.len() == min_u32((cfg.draw_count + cfg.supps) as u32, cfg.pool_max) - cfg.draw_count
    &&& (draw.numbers@ + draw.supps@).no_duplicates()
    &&& all_in_pool(draw.numbers@ + draw.supps@, cfg.pool_max)
    &&& if cfg.has_powerball {
        &&& draw.powerball is Some
        &&& cfg.powerball_max is Some
        &&& 1 <= draw.powerball->0 <= cfg.powerball_max->0
    } else {
        draw.powerball is None
    }
}

/// Makes one random draw of the game.
pub fn random_draw(cfg: &GameConfig) -> (res: Draw)
    requires
        cfg.drawable(),
    ensures
        valid_draw(*cfg, res),
{
    let (numbers, supps) = generate_draw_with_supps(cfg.pool_max, cfg.draw_count, cfg.supps);
    let powerball = if cfg.has_powerball {
        match cfg.powerball_max {
            Some(m) => Some(random_powerball(m)),
            None => None,
        }
    } else {
        None
    };
    Draw { numbers, supps, powerball }
}

} // verus!
