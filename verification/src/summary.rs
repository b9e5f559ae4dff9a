//! The results of many independent runs of a strategy, and their summary.
use vstd::prelude::*;

use crate::prize::capped;
use crate::simulation::SimStats;

verus! {

/// Each value is no larger than the next.
pub open spec fn ascending(s: Seq<u128>) -> bool {
    forall|i: int, j: int| 0 <= i <= j < s.len() ==> s[i] <= s[j]
}

/// The values in increasing order.
pub fn sort_ascending(values: &Vec<u128>) -> (res: Vec<u128>)
    ensures
        ascending(res@),
        res@.to_multiset() == values@.to_multiset(),
{
    broadcast use vstd::seq_lib::group_to_multiset_ensures;

    let mut sorted: Vec<u128> = Vec::new();
    let mut i: usize = 0;
    while i < values.len()
        invariant
            i <= values@.len(),
            ascending(sorted@),
            sorted@.to_multiset() == values@.take(i as int).to_multiset(),
        decreases values.len() - i,
    {
        let x = values[i];
        let mut pos: usize = 0;
        while pos < sorted.len() && sorted[pos] <= x
            invariant
                pos <= sorted@.len(),
                forall|k: int| 0 <= k < pos ==> sorted@[k] <= x,
            decreases sorted.len() - pos,
        {
            pos = pos + 1;
        }
        let ghost before = sorted@;
        sorted.insert(pos, x);
        proof {
            before.insert_ensures(pos as int, x);
            let a = before.subrange(0, pos as int);
            let b = before.subrange(pos as int, before.len() as int);
            assert(before == a + b);
            assert(sorted@ == a.push(x) + b);
            vstd::seq_lib::lemma_multiset_commutative(a, b);
            vstd::seq_lib::lemma_multiset_commutative(a.push(x), b);
            assert(values@.take(i + 1) == values@.take(i as int).push(x));
            a.to_multiset_ensures();
            values@.take(i as int).to_multiset_ensures();
            assert(a.push(x).to_multiset() =~= a.to_multiset().insert(x));
            assert(sorted@.to_multiset() =~= before.to_multiset().insert(x)) by {
                broadcast use vstd::multiset::group_multiset_axioms;

            }
            assert(values@.take(i + 1).to_multiset() =~= values@.take(i as int).to_multiset().insert(x));
            assert forall|p: int, q: int| 0 <= p <= q < sorted@.len() implies sorted@[p] <= sorted@[q] by {
                if q < pos {
                } else if q == pos {
                    if p < pos {
                        assert(sorted@[p] == before[p]);
                    }
                } else {
                    assert(sorted@[q] == before[q - 1]);
                    if p < pos {
                        assert(sorted@[p] == before[p]);
                    } else if p == pos {
                        assert(!(before[pos as int] <= x));
                    } else {
                        assert(sorted@[p] == before[p - 1]);
                    }
                }
            }
        }
        i = i + 1;
    }
    assert(values@.take(values@.len() as int) == values@);
    sorted
}

/// The runs of one strategy.
#[derive(Clone, Debug)]
pub struct BatchResult {
    pub results: Vec<SimStats>,
}

/// Totals over the runs, from which the front end reports averages.
#[derive(Clone, Debug)]
pub struct BatchSummary {
    pub runs: usize,
    pub median_balance: u128,
    pub min_balance: u128,
    pub max_balance: u128,
    pub total_balance: u128,
    pub total_draws: u128,
    pub total_won: u128,
    /// For each division of the first run's tally, the wins over all runs.
    pub division_totals: Vec<u128>,
}

/// The sum of `f` over the runs.
pub open spec fn sum_over(results: Seq<SimStats>, f: spec_fn(SimStats) -> nat) -> nat
    decreases results.len(),
{
    if results.len() == 0 {
        0
    } else {
        sum_over(results.drop_last(), f) + f(results.last())
    }
}

pub open spec fn balances(results: Seq<SimStats>) -> Seq<u128> {
    results.map_values(|r: SimStats| r.balance)
}

/// Every run tallies at least the divisions of the first run.
pub open spec fn tallies_aligned(results: Seq<SimStats>) -> bool {
    results.len() > 0 ==> forall|i: int|
        0 <= i < results.len() ==> (#[trigger] results[i]).division_wins@.len()
            >= results[0].division_wins@.len()
}

/// Adds `f` over the runs, stopping at `u128::MAX`.
fn sum_capped(results: &Vec<SimStats>, field: u8, division: usize) -> (res: u128)
    requires
        field <= 3,
        field == 3 ==> forall|i: int|
            0 <= i < results@.len() ==> division < (#[trigger] results@[i]).division_wins@.len(),
    ensures
        res == capped(sum_over(results@, field_of(field, division)) as int, u128::MAX as int),
{
    let mut total: u128 = 0;
    let mut i: usize = 0;
    while i < results.len()
        invariant
            field <= 3,
            field == 3 ==> forall|k: int|
                0 <= k < results@.len() ==> division < (#[trigger] results@[k]).division_wins@.len(),
            i <= results@.len(),
            total == capped(
                sum_over(results@.take(i as int), field_of(field, division)) as int,
                u128::MAX as int,
            ),
        decreases results.len() - i,
    {
        let r = &results[i];
        assert(results@.take(i + 1).drop_last() == results@.take(i as int));
        assert(results@.take(i + 1).last() == results@[i as int]);
        let v: u128 = if field == 0 {
            r.balance
        } else if field == 1 {
            r.total_draws as u128
        } else if field == 2 {
            r.total_won
        } else {
            r.division_wins[division] as u128
        };
        assert(v == field_of(field, division)(results@[i as int]));
        total = total.saturating_add(v);
        i = i + 1;
    }
    assert(results@.take(results@.len() as int) == results@);
    total
}

/// The quantity a summary adds up: the balance (0), the draws (1), the
/// winnings (2) or the wins of a division (3).
pub open spec fn field_of(field: u8, division: usize) -> spec_fn(SimStats) -> nat {
    |r: SimStats|
        if field == 0 {
            r.balance as nat
        } else if field == 1 {
            r.total_draws as nat
        } else if field == 2 {
            r.total_won as nat
        } else if 0 <= division < r.division_wins@.len() {
            r.division_wins@[division as int] as nat
        } else {
            0
        }
}

impl BatchResult {
    /// Sums up the runs: nothing when there are none; else the median (the
    /// middle value, upper of the two for an even count), least and greatest
    /// final balance, and the totals of balance, draws, winnings and each
    /// division's wins (each total stopping at `u128::MAX`).
    pub fn summary(&self) -> (res: Option<BatchSummary>)
        requires
            tallies_aligned(self.results@),
        ensures
            self.results@.len() == 0 <==> res is None,
            res matches Some(s) ==> {
                let n = self.results@.len() as int;
                &&& s.runs == n
                &&& exists|sorted: Seq<u128>|
                    {
                        &&& ascending(sorted)
                        &&& sorted.to_multiset() == balances(self.results@).to_multiset()
                        &&& s.median_balance == sorted[n / 2]
                        &&& s.min_balance == sorted[0]
                        &&& s.max_balance == sorted[n - 1]
                    }
                &&& s.total_balance == capped(sum_over(self.results@, field_of(0, 0)) as int, u128::MAX as int)
                &&& s.total_draws == capped(sum_over(self.results@, field_of(1, 0)) as int, u128::MAX as int)
                &&& s.total_won == capped(sum_over(self.results@, field_of(2, 0)) as int, u128::MAX as int)
                &&& s.division_totals@.len() == self.results@[0].division_wins@.len()
                &&& forall|d: int|
                    0 <= d < s.division_totals@.len() ==> #[trigger] s.division_totals@[d] == capped(
                        sum_over(self.results@, field_of(3, d as usize)) as int,
                        u128::MAX as int,
                    )
            },
    {
        let n = self.results.len();
        if n == 0 {
            return None;
        }
        let mut values: Vec<u128> = Vec::new();
        let mut i: usize = 0;
        while i < n
            invariant
                n == self.results@.len(),
                i <= n,
                values@ == balances(self.results@).take(i as int),
            decreases n - i,
        {
            values.push(self.results[i].balance);
            assert(balances(self.results@).take(i + 1) == balances(self.results@).take(i as int).push(
                self.results@[i as int].balance,
            ));
            i = i + 1;
        }
        assert(balances(self.results@).take(n as int) == balances(self.results@));
        let sorted = sort_ascending(&values);
        proof {
            sorted@.to_multiset_ensures();
            values@.to_multiset_ensures();
        }
        let median_balance = sorted[n / 2];
        let min_balance = sorted[0];
        let max_balance = sorted[n - 1];
        let total_balance = sum_capped(&self.results, 0, 0);
        let total_draws = sum_capped(&self.results, 1, 0);
        let total_won = sum_capped(&self.results, 2, 0);
        let divisions = self.results[0].division_wins.len();
        let mut division_totals: Vec<u128> = Vec::new();
        let mut d: usize = 0;
        while d < divisions
            invariant
                n == self.results@.len(),
                n > 0,
                divisions == self.results@[0].division_wins@.len(),
                tallies_aligned(self.results@),
                d <= divisions,
                division_totals@.len() == d,
                forall|k: int|
                    0 <= k < d ==> #[trigger] division_totals@[k] == capped(
                        sum_over(self.results@, field_of(3, k as usize)) as int,
                        u128::MAX as int,
                    ),
            decreases divisions - d,
        {
            assert forall|k: int| 0 <= k < self.results@.len() implies d < (
            #[trigger] self.results@[k]).division_wins@.len() by {
                assert(self.results@[k].division_wins@.len() >= self.results@[0].division_wins@.len());
            }
            let t = sum_capped(&self.results, 3, d);
            division_totals.push(t);
            d = d + 1;
        }
        Some(
            BatchSummary {
                runs: n,
                median_balance,
                min_balance,
                max_balance,
                total_balance,
                total_draws,
                total_won,
                division_totals,
            },
        )
    }
}

} // verus!
