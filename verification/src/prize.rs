//! Prize rules and the scoring of (system) tickets against a draw.
use vstd::prelude::*;

use crate::binomial::{
    binomial, combinations, convolution, lemma_binomial_above, lemma_binomial_all, lemma_binomial_positive,
    lemma_binomial_product, lemma_convolution_settles, lemma_vandermonde,
};
use crate::config::{GameConfig, PrizeRule};

verus! {

// ---------------------------------------------------------------------------
// Prize divisions
// ---------------------------------------------------------------------------

/// `rule` pays for a line with `m` main matches, `s` supplementary matches and
/// Powerball match `pbm`. The Powerball only counts in Powerball games.
pub open spec fn rule_applies(rule: PrizeRule, has_powerball: bool, m: nat, s: nat, pbm: bool) -> bool {
    &&& m == rule.matches
    &&& s == rule.supps
    &&& (!has_powerball || pbm == rule.pb)
}

/// `i` is the first division of `cfg` that pays for the line.
pub open spec fn is_first_rule(cfg: GameConfig, m: nat, s: nat, pbm: bool, i: int) -> bool {
    &&& 0 <= i < cfg.prizes@.len()
    &&& rule_applies(cfg.prizes@[i], cfg.has_powerball, m, s, pbm)
    &&& forall|j: int| 0 <= j < i ==> !rule_applies(#[trigger] cfg.prizes@[j], cfg.has_powerball, m, s, pbm)
}

/// The division a line wins: the first rule that applies, if any.
pub open spec fn rule_index(cfg: GameConfig, m: nat, s: nat, pbm: bool) -> Option<nat> {
    if exists|i: int| is_first_rule(cfg, m, s, pbm, i) {
        Some((choose|i: int| is_first_rule(cfg, m, s, pbm, i)) as nat)
    } else {
        None
    }
}

/// What a line pays: the amount of its division, or nothing.
pub open spec fn prize_amount(cfg: GameConfig, m: nat, s: nat, pbm: bool) -> nat {
    match rule_index(cfg, m, s, pbm) {
        Some(i) => cfg.prizes@[i as int].amount as nat,
        None => 0,
    }
}

proof fn lemma_first_rule_unique(cfg: GameConfig, m: nat, s: nat, pbm: bool, i: int, j: int)
    requires
        is_first_rule(cfg, m, s, pbm, i),
        is_first_rule(cfg, m, s, pbm, j),
    ensures
        i == j,
{
    if i < j {
        assert(!rule_applies(cfg.prizes@[i], cfg.has_powerball, m, s, pbm));
    } else if j < i {
        assert(!rule_applies(cfg.prizes@[j], cfg.has_powerball, m, s, pbm));
    }
}

/// The prize and division for a line with `matches` main matches,
/// `supp_matches` supplementary matches and Powerball match `pb_matched`:
/// the first division that applies, or nothing.
pub fn prize_for_counts(cfg: &GameConfig, matches: usize, supp_matches: usize, pb_matched: bool) -> (res: (u64, Option<usize>))
    ensures
        res.0 == prize_amount(*cfg, matches as nat, supp_matches as nat, pb_matched),
        match res.1 {
            Some(i) => rule_index(*cfg, matches as nat, supp_matches as nat, pb_matched) == Some(i as nat),
            None => rule_index(*cfg, matches as nat, supp_matches as nat, pb_matched) is None,
        },
{
    let ghost c = *cfg;
    let n = cfg.prizes.len();
    let mut i: usize = 0;
    while i < n
        invariant
            c == *cfg,
            n == cfg.prizes@.len(),
            i <= n,
            forall|j: int| 0 <= j < i ==> !rule_applies(#[trigger] cfg.prizes@[j], cfg.has_powerball, matches as nat, supp_matches as nat, pb_matched),
        decreases n - i,
    {
        let rule = &cfg.prizes[i];
        if matches == rule.matches && supp_matches == rule.supps && (!cfg.has_powerball || pb_matched == rule.pb) {
            proof {
                assert(is_first_rule(c, matches as nat, supp_matches as nat, pb_matched, i as int));
                let k = choose|k: int| is_first_rule(c, matches as nat, supp_matches as nat, pb_matched, k);
                lemma_first_rule_unique(c, matches as nat, supp_matches as nat, pb_matched, i as int, k);
            }
            return (rule.amount, Some(i));
        }
        i = i + 1;
    }
    proof {
        assert forall|k: int| !is_first_rule(c, matches as nat, supp_matches as nat, pb_matched, k) by {
            if is_first_rule(c, matches as nat, supp_matches as nat, pb_matched, k) {
                assert(!rule_applies(cfg.prizes@[k], cfg.has_powerball, matches as nat, supp_matches as nat, pb_matched));
            }
        }
    }
    (0, None)
}

// ---------------------------------------------------------------------------
// Counting matches
// ---------------------------------------------------------------------------

/// How many of the entries of `nums` occur in `pool`.
pub open spec fn count_in(nums: Seq<u32>, pool: Seq<u32>) -> nat
    decreases nums.len(),
{
    if nums.len() == 0 {
        0
    } else {
        count_in(nums.drop_last(), pool) + (if pool.contains(nums.last()) {
            1nat
        } else {
            0nat
        })
    }
}

proof fn lemma_count_in_bound(nums: Seq<u32>, pool: Seq<u32>)
    ensures
        count_in(nums, pool) <= nums.len(),
    decreases nums.len(),
{
    if nums.len() > 0 {
        lemma_count_in_bound(nums.drop_last(), pool);
    }
}

/// Whether `x` occurs in `v`.
fn contains(v: &[u32], x: u32) -> (res: bool)
    ensures
        res == v@.contains(x),
{
    let mut i: usize = 0;
    while i < v.len()
        invariant
            i <= v.len(),
            forall|j: int| 0 <= j < i ==> v@[j] != x,
        decreases v.len() - i,
    {
        if v[i] == x {
            assert(v@[i as int] == x);
            return true;
        }
        i = i + 1;
    }
    false
}

/// How many entries of `nums` occur in `pool`.
fn count_matches(nums: &[u32], pool: &[u32]) -> (res: usize)
    ensures
        res == count_in(nums@, pool@),
{
    let mut count: usize = 0;
    let mut i: usize = 0;
    while i < nums.len()
        invariant
            i <= nums.len(),
            count == count_in(nums@.take(i as int), pool@),
            count <= i,
        decreases nums.len() - i,
    {
        assert(nums@.take(i + 1).drop_last() == nums@.take(i as int));
        if contains(pool, nums[i]) {
            count = count + 1;
        }
        i = i + 1;
    }
    assert(nums@.take(nums.len() as int) == nums@);
    count
}

/// The prize and division of a single line `user_nums` against a draw.
/// In a Powerball game the Powerball matches when both are equal; in other
/// games it is ignored.
pub fn calculate_prize(
    cfg: &GameConfig,
    user_nums: &[u32],
    draw_nums: &[u32],
    draw_supps: &[u32],
    draw_pb: Option<u32>,
    user_pb: Option<u32>,
) -> (res: (u64, Option<usize>))
    ensures
        ({
            let m = count_in(user_nums@, draw_nums@);
            let s = count_in(user_nums@, draw_supps@);
            let pbm = cfg.has_powerball && user_pb == draw_pb;
            &&& res.0 == prize_amount(*cfg, m, s, pbm)
            &&& match res.1 {
                Some(i) => rule_index(*cfg, m, s, pbm) == Some(i as nat),
                None => rule_index(*cfg, m, s, pbm) is None,
            }
        }),
{
    let matches = count_matches(user_nums, draw_nums);
    let supp_matches = count_matches(user_nums, draw_supps);
    let pb_equal = match (user_pb, draw_pb) {
        (Some(a), Some(b)) => a == b,
        (None, None) => true,
        _ => false,
    };
    let pb_matched = cfg.has_powerball && pb_equal;
    prize_for_counts(cfg, matches, supp_matches, pb_matched)
}


// ---------------------------------------------------------------------------
// System tickets: how many lines win what
// ---------------------------------------------------------------------------

/// The number of lines of a system ticket with `x` numbers among the main
/// draw, `y` among the supplementaries and `z` among neither, that hold `k`
/// of the first, `l` of the second and the rest (`d - k - l`) of the third,
/// where a line has `d` numbers.
pub open spec fn ways(x: nat, y: nat, z: nat, d: nat, k: nat, l: nat) -> nat {
    if k + l <= d {
        binomial(x, k) * binomial(y, l) * binomial(z, (d - k - l) as nat)
    } else {
        0
    }
}

/// The entries `(k, l, count)` with `l < n` and a nonzero count, for a fixed `k`.
pub open spec fn distribution_row(x: nat, y: nat, z: nat, d: nat, k: nat, n: nat) -> Seq<(nat, nat, nat)>
    decreases n,
{
    if n == 0 {
        seq![]
    } else {
        let l = (n - 1) as nat;
        let prev = distribution_row(x, y, z, d, k, l);
        if ways(x, y, z, d, k, l) > 0 {
            prev.push((k, l, ways(x, y, z, d, k, l)))
        } else {
            prev
        }
    }
}

pub open spec fn min_nat(a: nat, b: nat) -> nat {
    if a <= b {
        a
    } else {
        b
    }
}

/// The entries with `k < n`, in increasing order of `(k, l)`.
pub open spec fn distribution_rows(x: nat, y: nat, z: nat, d: nat, n: nat) -> Seq<(nat, nat, nat)>
    decreases n,
{
    if n == 0 {
        seq![]
    } else {
        let k = (n - 1) as nat;
        distribution_rows(x, y, z, d, k) + distribution_row(
            x,
            y,
            z,
            d,
            k,
            min_nat((d - k) as nat, y) + 1,
        )
    }
}

/// Every pair `(k, l)` of main and supplementary matches that some line of the
/// ticket has, with the number of lines that have it, in increasing order of
/// `(k, l)`.
pub open spec fn distribution(x: nat, y: nat, z: nat, d: nat) -> Seq<(nat, nat, nat)> {
    distribution_rows(x, y, z, d, min_nat(x, d) + 1)
}

pub open spec fn entry_view(e: (usize, usize, u64)) -> (nat, nat, nat) {
    (e.0 as nat, e.1 as nat, e.2 as nat)
}

proof fn lemma_ways_bound(x: nat, y: nat, z: nat, d: nat, k: nat, l: nat)
    requires
        k + l <= d,
    ensures
        ways(x, y, z, d, k, l) <= binomial(x + y + z, d),
{
    let o = (d - k - l) as nat;
    lemma_binomial_product(x, k, y, l);
    lemma_binomial_product(x + y, k + l, z, o);
    let a = binomial(x, k) * binomial(y, l);
    let b = binomial(x + y, k + l);
    let c = binomial(z, o);
    assert(a * c <= b * c) by (nonlinear_arith)
        requires
            a <= b,
    ;
}

proof fn lemma_factors_bound(a: nat, b: nat, c: nat, bound: nat)
    requires
        a >= 1,
        b >= 1,
        c >= 1,
        a * b * c <= bound,
    ensures
        a <= bound,
        b <= bound,
        c <= bound,
        a * b <= bound,
{
    assert(a * b <= a * b * c) by (nonlinear_arith)
        requires
            c >= 1,
    ;
    assert(a <= a * b) by (nonlinear_arith)
        requires
            b >= 1,
    ;
    assert(b <= a * b) by (nonlinear_arith)
        requires
            a >= 1,
    ;
    assert(c <= a * b * c) by (nonlinear_arith)
        requires
            a >= 1,
            b >= 1,
    ;
}

/// The number of lines counted by `entries`.
pub open spec fn line_count(entries: Seq<(nat, nat, nat)>) -> nat
    decreases entries.len(),
{
    if entries.len() == 0 {
        0
    } else {
        line_count(entries.drop_last()) + entries.last().2
    }
}

proof fn lemma_line_count_concat(a: Seq<(nat, nat, nat)>, b: Seq<(nat, nat, nat)>)
    ensures
        line_count(a + b) == line_count(a) + line_count(b),
    decreases b.len(),
{
    if b.len() > 0 {
        lemma_line_count_concat(a, b.drop_last());
        assert((a + b).drop_last() == a + b.drop_last());
        assert((a + b).last() == b.last());
    } else {
        assert(a + b == a);
    }
}

/// The lines of row `k` with `l < n`, in the product form.
proof fn lemma_row_lines(x: nat, y: nat, z: nat, d: nat, k: nat, n: nat)
    requires
        k <= d,
        n <= d - k + 1,
    ensures
        line_count(distribution_row(x, y, z, d, k, n)) == binomial(x, k) * convolution(
            y,
            z,
            (d - k) as nat,
            n,
        ),
    decreases n,
{
    if n > 0 {
        let l = (n - 1) as nat;
        lemma_row_lines(x, y, z, d, k, l);
        let prev = distribution_row(x, y, z, d, k, l);
        let w = ways(x, y, z, d, k, l);
        let m = (d - k) as nat;
        assert((d - k - l) as nat == (m - l) as nat);
        if w > 0 {
            assert(prev.push((k, l, w)).drop_last() == prev);
        }
        let bx = binomial(x, k);
        let by = binomial(y, l);
        let bz = binomial(z, (m - l) as nat);
        assert(w == bx * by * bz);
        assert(bx * convolution(y, z, m, n) == bx * convolution(y, z, m, l) + w) by (nonlinear_arith)
            requires
                convolution(y, z, m, n) == convolution(y, z, m, l) + by * bz,
                w == bx * by * bz,
        ;
    } else {
        assert(convolution(y, z, (d - k) as nat, 0) == 0);
        assert(binomial(x, k) * 0 == 0);
    }
}

/// The lines of the rows `k < n`.
proof fn lemma_rows_lines(x: nat, y: nat, z: nat, d: nat, n: nat)
    requires
        n <= d + 1,
    ensures
        line_count(distribution_rows(x, y, z, d, n)) == convolution(x, y + z, d, n),
    decreases n,
{
    if n > 0 {
        let k = (n - 1) as nat;
        lemma_rows_lines(x, y, z, d, k);
        let top = min_nat((d - k) as nat, y) + 1;
        lemma_line_count_concat(distribution_rows(x, y, z, d, k), distribution_row(x, y, z, d, k, top));
        lemma_row_lines(x, y, z, d, k, top);
        let m = (d - k) as nat;
        if y < m {
            lemma_convolution_settles(y, z, m, y + 1);
        }
        lemma_vandermonde(y, z, m);
    }
}

/// Every line of a system ticket is counted once: a ticket of `x + y + z`
/// numbers expands to `C(x + y + z, d)` lines of `d` numbers.
pub proof fn lemma_every_line_counted(x: nat, y: nat, z: nat, d: nat)
    ensures
        line_count(distribution(x, y, z, d)) == binomial(x + y + z, d),
{
    let n = min_nat(x, d) + 1;
    lemma_rows_lines(x, y, z, d, n);
    if x < d {
        lemma_convolution_settles(x, y + z, d, x + 1);
    }
    lemma_vandermonde(x, y + z, d);
}

/// With `k` below `x`, or `k == x` and `l` below `y`, a line of `d == x + y + z`
/// numbers would need more than `z` numbers from outside the draw.
proof fn lemma_row_empty(x: nat, y: nat, z: nat, d: nat, k: nat, n: nat)
    requires
        x + y + z == d,
        (k < x && n <= y + 1) || (k == x && n <= y),
    ensures
        distribution_row(x, y, z, d, k, n) == Seq::<(nat, nat, nat)>::empty(),
    decreases n,
{
    if n > 0 {
        let l = (n - 1) as nat;
        lemma_row_empty(x, y, z, d, k, l);
        if k + l <= d {
            let o = (d - k - l) as nat;
            lemma_binomial_above(z, o);
            let a = binomial(x, k);
            let b = binomial(y, l);
            assert(a * b * binomial(z, o) == 0) by (nonlinear_arith)
                requires
                    binomial(z, o) == 0,
            ;
        }
    }
}

proof fn lemma_rows_empty(x: nat, y: nat, z: nat, d: nat, n: nat)
    requires
        x + y + z == d,
        n <= x,
    ensures
        distribution_rows(x, y, z, d, n) == Seq::<(nat, nat, nat)>::empty(),
    decreases n,
{
    if n > 0 {
        let k = (n - 1) as nat;
        lemma_rows_empty(x, y, z, d, k);
        lemma_row_empty(x, y, z, d, k, min_nat((d - k) as nat, y) + 1);
        assert(Seq::<(nat, nat, nat)>::empty() + Seq::<(nat, nat, nat)>::empty() == Seq::<(nat, nat, nat)>::empty());
    }
}

/// A ticket of exactly one line (`x + y + z == d`) has a single entry: the
/// line itself, with `x` main and `y` supplementary matches.
pub proof fn lemma_one_line_distribution(x: nat, y: nat, z: nat, d: nat)
    requires
        x + y + z == d,
    ensures
        distribution(x, y, z, d) == seq![(x, y, 1nat)],
{
    assert(min_nat(x, d) == x);
    assert(min_nat((d - x) as nat, y) == y);
    lemma_rows_empty(x, y, z, d, x);
    lemma_row_empty(x, y, z, d, x, y);
    lemma_binomial_all(x);
    lemma_binomial_all(y);
    lemma_binomial_all(z);
    assert((d - x - y) as nat == z);
    assert(ways(x, y, z, d, x, y) == 1);
    assert(distribution_row(x, y, z, d, x, y + 1) == seq![(x, y, 1nat)]);
    assert(Seq::<(nat, nat, nat)>::empty() + seq![(x, y, 1nat)] == seq![(x, y, 1nat)]);
}

/// For a system ticket `user_nums` (a line has `draw_count` numbers), every
/// pair of main and supplementary match counts that some of its lines reach,
/// with the number of lines that reach it, in increasing order of the pair.
/// A ticket number must not be counted both as a main and as a supplementary
/// match, and the number of lines must fit in a `u64`.
pub fn count_match_distribution(
    cfg: &GameConfig,
    user_nums: &[u32],
    draw_nums: &[u32],
    draw_supps: &[u32],
) -> (res: Vec<(usize, usize, u64)>)
    requires
        count_in(user_nums@, draw_nums@) + count_in(user_nums@, draw_supps@) <= user_nums@.len(),
        binomial(user_nums@.len(), cfg.draw_count as nat) <= u64::MAX,
    ensures
        ({
            let x = count_in(user_nums@, draw_nums@);
            let y = count_in(user_nums@, draw_supps@);
            let z = (user_nums@.len() - x - y) as nat;
            res@.map_values(|e: (usize, usize, u64)| entry_view(e)) == distribution(x, y, z, cfg.draw_count as nat)
        }),
{
    let x = count_matches(user_nums, draw_nums);
    let y = count_matches(user_nums, draw_supps);
    let z = user_nums.len() - x - y;
    let d = cfg.draw_count as usize;
    let ghost (xn, yn, zn, dn) = (x as nat, y as nat, z as nat, d as nat);
    let ghost total = binomial(user_nums@.len(), dn);
    assert(xn + yn + zn == user_nums@.len());
    let top_k = if x <= d { x } else { d };
    let mut res: Vec<(usize, usize, u64)> = Vec::new();
    let mut k: usize = 0;
    loop
        invariant_except_break
            top_k == min_nat(xn, dn),
            top_k <= x,
            top_k <= d,
            x == xn,
            y == yn,
            z == zn,
            d == dn,
            d <= u32::MAX,
            xn + yn + zn == user_nums@.len(),
            total == binomial(user_nums@.len(), dn),
            total <= u64::MAX,
            k <= top_k,
            res@.map_values(|e: (usize, usize, u64)| entry_view(e)) == distribution_rows(xn, yn, zn, dn, k as nat),
        ensures
            res@.map_values(|e: (usize, usize, u64)| entry_view(e)) == distribution_rows(
                xn,
                yn,
                zn,
                dn,
                (top_k + 1) as nat,
            ),
        decreases top_k - k,
    {
        let max_supp = if d - k <= y { d - k } else { y };
        let ghost before = res@.map_values(|e: (usize, usize, u64)| entry_view(e));
        let mut l: usize = 0;
        loop
            invariant_except_break
                top_k == min_nat(xn, dn),
                k <= top_k,
                top_k <= x,
                top_k <= d,
                x == xn,
                y == yn,
                z == zn,
                d == dn,
                d <= u32::MAX,
                xn + yn + zn == user_nums@.len(),
                total == binomial(user_nums@.len(), dn),
                total <= u64::MAX,
                max_supp == min_nat((dn - k) as nat, yn),
                l <= max_supp,
                before == distribution_rows(xn, yn, zn, dn, k as nat),
                res@.map_values(|e: (usize, usize, u64)| entry_view(e)) == before + distribution_row(xn, yn, zn, dn, k as nat, l as nat),
            ensures
                res@.map_values(|e: (usize, usize, u64)| entry_view(e)) == before + distribution_row(
                    xn,
                    yn,
                    zn,
                    dn,
                    k as nat,
                    (max_supp + 1) as nat,
                ),
            decreases max_supp - l,
        {
            let ghost w = ways(xn, yn, zn, dn, k as nat, l as nat);
            let outsiders = d - k - l;
            if outsiders <= z {
                proof {
                    lemma_ways_bound(xn, yn, zn, dn, k as nat, l as nat);
                    lemma_binomial_positive(xn, k as nat);
                    lemma_binomial_positive(yn, l as nat);
                    lemma_binomial_positive(zn, outsiders as nat);
                    lemma_factors_bound(
                        binomial(xn, k as nat),
                        binomial(yn, l as nat),
                        binomial(zn, outsiders as nat),
                        total,
                    );
                }
                let a = combinations(x as u64, k as u64);
                let b = combinations(y as u64, l as u64);
                let c = combinations(z as u64, outsiders as u64);
                let combo = a * b * c;
                assert(combo == w);
                let ghost old_res = res@;
                if combo > 0 {
                    res.push((k, l, combo));
                    assert(res@.map_values(|e: (usize, usize, u64)| entry_view(e)) == old_res.map_values(
                        |e: (usize, usize, u64)| entry_view(e),
                    ).push((k as nat, l as nat, w)));
                }
            } else {
                proof {
                    lemma_binomial_above(zn, outsiders as nat);
                    assert(w == 0) by (nonlinear_arith)
                        requires
                            w == binomial(xn, k as nat) * binomial(yn, l as nat) * binomial(zn, outsiders as nat),
                            binomial(zn, outsiders as nat) == 0,
                    ;
                }
            }
            assert(before + distribution_row(xn, yn, zn, dn, k as nat, (l + 1) as nat) == (if w > 0 {
                (before + distribution_row(xn, yn, zn, dn, k as nat, l as nat)).push((k as nat, l as nat, w))
            } else {
                before + distribution_row(xn, yn, zn, dn, k as nat, l as nat)
            }));
            if l == max_supp {
                break;
            }
            l = l + 1;
        }
        if k == top_k {
            break;
        }
        k = k + 1;
    }
    res
}


// ---------------------------------------------------------------------------
// Scoring a ticket
// ---------------------------------------------------------------------------

/// `x`, but no more than `max`.
pub open spec fn capped(x: int, max: int) -> int {
    if x > max {
        max
    } else {
        x
    }
}

/// How many Powerball values each line of the ticket is played with: all of
/// them for a PowerHit ticket in a Powerball game, else one.
pub open spec fn pb_variants(cfg: GameConfig, is_powerhit: bool) -> nat {
    if cfg.has_powerball && is_powerhit {
        match cfg.powerball_max {
            Some(m) => m as nat,
            None => 1,
        }
    } else {
        1
    }
}

/// The ticket plays every Powerball value.
pub open spec fn plays_powerhit(cfg: GameConfig, is_powerhit: bool) -> bool {
    cfg.has_powerball && is_powerhit
}

/// The Powerball match of the lines of a ticket that is not a PowerHit:
/// whether the chosen Powerball came up, in a Powerball game.
pub open spec fn line_pb(cfg: GameConfig, pb_matched: bool) -> bool {
    cfg.has_powerball && pb_matched
}

/// What the lines counted by entry `e` win together. A PowerHit ticket has
/// `e.2` lines with the drawn Powerball and `e.2` lines with each other value.
pub open spec fn entry_value(cfg: GameConfig, is_powerhit: bool, pb_matched: bool, e: (nat, nat, nat)) -> nat {
    if plays_powerhit(cfg, is_powerhit) {
        let v = pb_variants(cfg, is_powerhit);
        e.2 * prize_amount(cfg, e.0, e.1, true) + (if v > 1 {
            e.2 * (v - 1) as nat * prize_amount(cfg, e.0, e.1, false)
        } else {
            0
        })
    } else {
        e.2 * prize_amount(cfg, e.0, e.1, line_pb(cfg, pb_matched))
    }
}

/// What all the lines counted by `entries` win.
pub open spec fn total_value(cfg: GameConfig, is_powerhit: bool, pb_matched: bool, entries: Seq<(nat, nat, nat)>) -> nat
    decreases entries.len(),
{
    if entries.len() == 0 {
        0
    } else {
        total_value(cfg, is_powerhit, pb_matched, entries.drop_last()) + entry_value(
            cfg,
            is_powerhit,
            pb_matched,
            entries.last(),
        )
    }
}

/// Adds `amount` wins to division `idx`, when it is one the tally records;
/// a tally stops at `u64::MAX`.
pub open spec fn add_wins(wins: Seq<u64>, idx: Option<nat>, amount: nat) -> Seq<u64> {
    match idx {
        Some(d) => if d < wins.len() {
            wins.update(d as int, capped(wins[d as int] + amount, u64::MAX as int) as u64)
        } else {
            wins
        },
        None => wins,
    }
}

/// The division tally after the lines counted by entry `e`.
pub open spec fn entry_wins(cfg: GameConfig, is_powerhit: bool, pb_matched: bool, wins: Seq<u64>, e: (nat, nat, nat)) -> Seq<u64> {
    if plays_powerhit(cfg, is_powerhit) {
        let hit = add_wins(wins, rule_index(cfg, e.0, e.1, true), e.2);
        add_wins(
            hit,
            rule_index(cfg, e.0, e.1, false),
            e.2 * (pb_variants(cfg, is_powerhit) - 1) as nat,
        )
    } else {
        add_wins(wins, rule_index(cfg, e.0, e.1, line_pb(cfg, pb_matched)), e.2)
    }
}

/// The division tally after all the lines counted by `entries`.
pub open spec fn wins_after(cfg: GameConfig, is_powerhit: bool, pb_matched: bool, wins: Seq<u64>, entries: Seq<(nat, nat, nat)>) -> Seq<u64>
    decreases entries.len(),
{
    if entries.len() == 0 {
        wins
    } else {
        entry_wins(
            cfg,
            is_powerhit,
            pb_matched,
            wins_after(cfg, is_powerhit, pb_matched, wins, entries.drop_last()),
            entries.last(),
        )
    }
}

/// Scoring keeps the length of the division tally.
pub proof fn lemma_wins_after_len(
    cfg: GameConfig,
    is_powerhit: bool,
    pb_matched: bool,
    wins: Seq<u64>,
    entries: Seq<(nat, nat, nat)>,
)
    ensures
        wins_after(cfg, is_powerhit, pb_matched, wins, entries).len() == wins.len(),
    decreases entries.len(),
{
    if entries.len() > 0 {
        lemma_wins_after_len(cfg, is_powerhit, pb_matched, wins, entries.drop_last());
    }
}

/// Some line counted by entry `e` wins Division 1. A PowerHit ticket plays
/// these lines with the drawn Powerball and, when there are other values,
/// with a Powerball that was not drawn; either may win Division 1.
pub open spec fn entry_hits_div1(cfg: GameConfig, is_powerhit: bool, pb_matched: bool, e: (nat, nat, nat)) -> bool {
    if plays_powerhit(cfg, is_powerhit) {
        ||| rule_index(cfg, e.0, e.1, true) == Some(0nat)
        ||| (pb_variants(cfg, is_powerhit) > 1 && rule_index(cfg, e.0, e.1, false) == Some(0nat))
    } else {
        rule_index(cfg, e.0, e.1, line_pb(cfg, pb_matched)) == Some(0nat)
    }
}

pub open spec fn any_div1(cfg: GameConfig, is_powerhit: bool, pb_matched: bool, entries: Seq<(nat, nat, nat)>) -> bool {
    exists|i: int| 0 <= i < entries.len() && entry_hits_div1(cfg, is_powerhit, pb_matched, #[trigger] entries[i])
}

/// The distribution of a ticket against a draw.
pub open spec fn ticket_distribution(cfg: GameConfig, user_nums: Seq<u32>, draw_nums: Seq<u32>, draw_supps: Seq<u32>) -> Seq<(nat, nat, nat)> {
    let x = count_in(user_nums, draw_nums);
    let y = count_in(user_nums, draw_supps);
    distribution(x, y, (user_nums.len() - x - y) as nat, cfg.draw_count as nat)
}

/// The ticket can be scored: no ticket number counts both as a main and a
/// supplementary match, its lines can be counted in a `u64`, and a PowerHit
/// ticket in a game with no Powerball values has no line that would add to
/// a division the tally (of `tally_len` divisions) records without the
/// Powerball.
pub open spec fn scorable(
    cfg: GameConfig,
    user_nums: Seq<u32>,
    is_powerhit: bool,
    draw_nums: Seq<u32>,
    draw_supps: Seq<u32>,
    tally_len: nat,
) -> bool {
    let dist = ticket_distribution(cfg, user_nums, draw_nums, draw_supps);
    &&& count_in(user_nums, draw_nums) + count_in(user_nums, draw_supps) <= user_nums.len()
    &&& binomial(user_nums.len(), cfg.draw_count as nat) <= u64::MAX
    &&& (plays_powerhit(cfg, is_powerhit) && pb_variants(cfg, is_powerhit) == 0) ==> forall|i: int|
        0 <= i < dist.len() ==> match rule_index(cfg, (#[trigger] dist[i]).0, dist[i].1, false) {
            Some(d) => d >= tally_len,
            None => true,
        }
}

/// A ticket of one line, not played as a PowerHit, scores as that line
/// alone does in [`calculate_prize`]: it wins the prize of the line's
/// division, wins Division 1 exactly when that division is the first, and
/// adds one win to that division.
pub proof fn lemma_single_line_ticket(
    cfg: GameConfig,
    user_nums: Seq<u32>,
    draw_nums: Seq<u32>,
    draw_supps: Seq<u32>,
    pb_matched: bool,
    wins: Seq<u64>,
)
    requires
        user_nums.len() == cfg.draw_count,
        count_in(user_nums, draw_nums) + count_in(user_nums, draw_supps) <= user_nums.len(),
    ensures
        ({
            let dist = ticket_distribution(cfg, user_nums, draw_nums, draw_supps);
            let m = count_in(user_nums, draw_nums);
            let s = count_in(user_nums, draw_supps);
            let pbm = line_pb(cfg, pb_matched);
            &&& dist == seq![(m, s, 1nat)]
            &&& total_value(cfg, false, pb_matched, dist) == prize_amount(cfg, m, s, pbm)
            &&& any_div1(cfg, false, pb_matched, dist) == (rule_index(cfg, m, s, pbm) == Some(0nat))
            &&& wins_after(cfg, false, pb_matched, wins, dist) == add_wins(wins, rule_index(cfg, m, s, pbm), 1)
        }),
{
    let m = count_in(user_nums, draw_nums);
    let s = count_in(user_nums, draw_supps);
    let z = (user_nums.len() - m - s) as nat;
    lemma_one_line_distribution(m, s, z, cfg.draw_count as nat);
    let dist = ticket_distribution(cfg, user_nums, draw_nums, draw_supps);
    assert(dist.drop_last() == Seq::<(nat, nat, nat)>::empty());
    assert(dist.last() == (m, s, 1nat));
    assert(total_value(cfg, false, pb_matched, dist.drop_last()) == 0);
    assert(entry_value(cfg, false, pb_matched, dist.last()) == prize_amount(cfg, m, s, line_pb(cfg, pb_matched)));
    assert(wins_after(cfg, false, pb_matched, wins, dist.drop_last()) == wins);
    assert(dist[0] == (m, s, 1nat));
    if rule_index(cfg, m, s, line_pb(cfg, pb_matched)) == Some(0nat) {
        assert(entry_hits_div1(cfg, false, pb_matched, dist[0]));
    } else {
        assert(!entry_hits_div1(cfg, false, pb_matched, dist[0]));
    }
}

/// A PowerHit ticket in a Powerball game is the same ticket played once with
/// every Powerball value: it wins what the plain ticket wins with the drawn
/// Powerball, plus what it wins with a missed Powerball once for each of the
/// other `powerball_max - 1` values; and it wins Division 1 exactly when one
/// of those plain tickets does.
pub proof fn lemma_powerhit_is_every_powerball(
    cfg: GameConfig,
    pb_matched: bool,
    entries: Seq<(nat, nat, nat)>,
)
    requires
        cfg.has_powerball,
        pb_variants(cfg, true) >= 1,
    ensures
        total_value(cfg, true, pb_matched, entries) == total_value(cfg, false, true, entries) + (pb_variants(
            cfg,
            true,
        ) - 1) * total_value(cfg, false, false, entries),
        any_div1(cfg, true, pb_matched, entries) == (any_div1(cfg, false, true, entries) || (pb_variants(cfg, true)
            > 1 && any_div1(cfg, false, false, entries))),
    decreases entries.len(),
{
    let v = pb_variants(cfg, true);
    if entries.len() > 0 {
        let prev = entries.drop_last();
        let e = entries.last();
        lemma_powerhit_is_every_powerball(cfg, pb_matched, prev);
        let a = total_value(cfg, false, true, prev);
        let b = total_value(cfg, false, false, prev);
        let pt = prize_amount(cfg, e.0, e.1, true);
        let pf = prize_amount(cfg, e.0, e.1, false);
        assert(line_pb(cfg, true) && !line_pb(cfg, false));
        assert(entry_value(cfg, false, true, e) == e.2 * pt);
        assert(entry_value(cfg, false, false, e) == e.2 * pf);
        assert(entry_value(cfg, true, pb_matched, e) == e.2 * pt + (if v > 1 {
            e.2 * (v - 1) as nat * pf
        } else {
            0
        }));
        assert(a + (v - 1) * b + e.2 * pt + (if v > 1 {
            e.2 * (v - 1) as nat * pf
        } else {
            0
        }) == (a + e.2 * pt) + (v - 1) * (b + e.2 * pf)) by (nonlinear_arith)
            requires
                v >= 1,
        ;
    } else {
        assert((v - 1) * 0int == 0) by (nonlinear_arith);
    }
    assert forall|i: int| 0 <= i < entries.len() implies #[trigger] entry_hits_div1(cfg, true, pb_matched, entries[i])
        == (entry_hits_div1(cfg, false, true, entries[i]) || (v > 1 && entry_hits_div1(cfg, false, false, entries[i]))) by {}
    if any_div1(cfg, true, pb_matched, entries) {
        let i = choose|i: int| 0 <= i < entries.len() && entry_hits_div1(cfg, true, pb_matched, #[trigger] entries[i]);
        if entry_hits_div1(cfg, false, true, entries[i]) {
        } else {
            assert(entry_hits_div1(cfg, false, false, entries[i]));
        }
    }
    if any_div1(cfg, false, true, entries) {
        let i = choose|i: int| 0 <= i < entries.len() && entry_hits_div1(cfg, false, true, #[trigger] entries[i]);
        assert(entry_hits_div1(cfg, true, pb_matched, entries[i]));
    }
    if v > 1 && any_div1(cfg, false, false, entries) {
        let i = choose|i: int| 0 <= i < entries.len() && entry_hits_div1(cfg, false, false, #[trigger] entries[i]);
        assert(entry_hits_div1(cfg, true, pb_matched, entries[i]));
    }
}

/// In a game without a Powerball, neither the chosen Powerball nor the
/// PowerHit flag changes what a ticket wins, whether it wins Division 1, or
/// the division tally.
pub proof fn lemma_no_powerball_ignores_picks(
    cfg: GameConfig,
    ph1: bool,
    pbm1: bool,
    ph2: bool,
    pbm2: bool,
    wins: Seq<u64>,
    entries: Seq<(nat, nat, nat)>,
)
    requires
        !cfg.has_powerball,
    ensures
        total_value(cfg, ph1, pbm1, entries) == total_value(cfg, ph2, pbm2, entries),
        any_div1(cfg, ph1, pbm1, entries) == any_div1(cfg, ph2, pbm2, entries),
        wins_after(cfg, ph1, pbm1, wins, entries) == wins_after(cfg, ph2, pbm2, wins, entries),
    decreases entries.len(),
{
    if entries.len() > 0 {
        lemma_no_powerball_ignores_picks(cfg, ph1, pbm1, ph2, pbm2, wins, entries.drop_last());
    }
    assert forall|i: int| 0 <= i < entries.len() implies entry_hits_div1(cfg, ph1, pbm1, #[trigger] entries[i])
        == entry_hits_div1(cfg, ph2, pbm2, entries[i]) by {}
    if any_div1(cfg, ph1, pbm1, entries) {
        let i = choose|i: int| 0 <= i < entries.len() && entry_hits_div1(cfg, ph1, pbm1, #[trigger] entries[i]);
        assert(entry_hits_div1(cfg, ph2, pbm2, entries[i]));
    }
    if any_div1(cfg, ph2, pbm2, entries) {
        let i = choose|i: int| 0 <= i < entries.len() && entry_hits_div1(cfg, ph2, pbm2, #[trigger] entries[i]);
        assert(entry_hits_div1(cfg, ph1, pbm1, entries[i]));
    }
}

/// Capping each part and then the sum caps the sum.
pub proof fn lemma_capped_add(a: int, b: int, max: int)
    requires
        a >= 0,
        b >= 0,
        max >= 0,
    ensures
        capped(capped(a, max) + capped(b, max), max) == capped(a + b, max),
{
}

fn sat_mul(a: u128, b: u128) -> (r: u128)
    ensures
        r == capped(a * b, u128::MAX as int),
{
    match a.checked_mul(b) {
        Some(p) => p,
        None => u128::MAX,
    }
}

fn wide_mul(a: u64, b: u64) -> (r: u128)
    ensures
        r == a * b,
{
    assert(a * b <= u128::MAX) by (nonlinear_arith)
        requires
            a <= u64::MAX,
            b <= u64::MAX,
    ;
    (a as u128) * (b as u128)
}

fn add_to_tally(old: u64, amount: u128) -> (r: u64)
    ensures
        r == capped(old + amount, u64::MAX as int),
{
    if amount >= u64::MAX as u128 {
        u64::MAX
    } else {
        old.saturating_add(amount as u64)
    }
}

/// Scores a (system) ticket against a draw. Every combination of
/// `draw_count` of `user_nums` is a line; a PowerHit ticket in a Powerball
/// game plays each line with every Powerball value. Returns what the lines
/// win in all (capped at `u128::MAX`) and whether one of them wins Division 1,
/// and adds the lines that win each division to `division_wins` (each tally
/// capped at `u64::MAX`).
pub fn score_ticket_lines(
    cfg: &GameConfig,
    user_nums: &[u32],
    user_pb: Option<u32>,
    is_powerhit: bool,
    draw_nums: &[u32],
    draw_supps: &[u32],
    draw_pb: Option<u32>,
    division_wins: &mut [u64],
) -> (res: (u128, bool))
    requires
        scorable(*cfg, user_nums@, is_powerhit, draw_nums@, draw_supps@, old(division_wins)@.len()),
    ensures
        ({
            let dist = ticket_distribution(*cfg, user_nums@, draw_nums@, draw_supps@);
            let pbm = user_pb == draw_pb;
            &&& res.0 == capped(total_value(*cfg, is_powerhit, pbm, dist) as int, u128::MAX as int)
            &&& res.1 == any_div1(*cfg, is_powerhit, pbm, dist)
            &&& final(division_wins)@ == wins_after(*cfg, is_powerhit, pbm, old(division_wins)@, dist)
        }),
{
    let counts = count_match_distribution(cfg, user_nums, draw_nums, draw_supps);
    let ghost dist = ticket_distribution(*cfg, user_nums@, draw_nums@, draw_supps@);
    let ghost c = *cfg;
    let ghost wins0 = division_wins@;
    let pb_matched = match (user_pb, draw_pb) {
        (Some(a), Some(b)) => a == b,
        (None, None) => true,
        _ => false,
    };
    assert(pb_matched == (user_pb == draw_pb));
    let powerhit = cfg.has_powerball && is_powerhit;
    let variants: u64 = if powerhit {
        match cfg.powerball_max {
            Some(m) => m as u64,
            None => 1,
        }
    } else {
        1
    };
    let mut total_prize: u128 = 0;
    let mut has_div1 = false;
    let n = counts.len();
    let mut i: usize = 0;
    while i < n
        invariant
            c == *cfg,
            n == counts@.len(),
            counts@.map_values(|e: (usize, usize, u64)| entry_view(e)) == dist,
            i <= n,
            powerhit == plays_powerhit(c, is_powerhit),
            variants == pb_variants(c, is_powerhit),
            pb_matched == (user_pb == draw_pb),
            scorable(c, user_nums@, is_powerhit, draw_nums@, draw_supps@, wins0.len()),
            division_wins@.len() == wins0.len(),
            dist == ticket_distribution(c, user_nums@, draw_nums@, draw_supps@),
            total_prize == capped(total_value(c, is_powerhit, pb_matched, dist.take(i as int)) as int, u128::MAX as int),
            has_div1 == any_div1(c, is_powerhit, pb_matched, dist.take(i as int)),
            division_wins@ == wins_after(c, is_powerhit, pb_matched, wins0, dist.take(i as int)),
        decreases n - i,
    {
        let (matches, supp_matches, count) = counts[i];
        let ghost e = dist[i as int];
        assert(e == entry_view(counts@[i as int]));
        let ghost prefix = dist.take(i as int);
        assert(dist.take(i + 1).drop_last() == prefix);
        assert(dist.take(i + 1).last() == e);
        let ghost tv = total_value(c, is_powerhit, pb_matched, prefix);
        let ghost wv = wins_after(c, is_powerhit, pb_matched, wins0, prefix);
        if powerhit {
            let (hit_prize, hit_div) = prize_for_counts(cfg, matches, supp_matches, true);
            let (miss_prize, miss_div) = prize_for_counts(cfg, matches, supp_matches, false);
            let hit_total = wide_mul(hit_prize, count);
            assert(hit_total == e.2 * prize_amount(c, e.0, e.1, true)) by (nonlinear_arith)
                requires
                    hit_total == hit_prize * count,
                    hit_prize == prize_amount(c, e.0, e.1, true),
                    count == e.2,
            ;
            proof {
                lemma_capped_add(tv as int, hit_total as int, u128::MAX as int);
            }
            total_prize = total_prize.saturating_add(hit_total);
            if variants > 1 {
                let miss_total = sat_mul(wide_mul(miss_prize, count), (variants - 1) as u128);
                let ghost t2 = e.2 * (variants - 1) as nat * prize_amount(c, e.0, e.1, false);
                assert(miss_prize * count * (variants - 1) == t2) by (nonlinear_arith)
                    requires
                        t2 == e.2 * (variants - 1) as nat * prize_amount(c, e.0, e.1, false),
                        miss_prize == prize_amount(c, e.0, e.1, false),
                        count == e.2,
                        variants > 1,
                ;
                proof {
                    lemma_capped_add(tv + hit_total, t2 as int, u128::MAX as int);
                }
                total_prize = total_prize.saturating_add(miss_total);
            }
            assert(total_prize == capped((tv + entry_value(c, is_powerhit, pb_matched, e)) as int, u128::MAX as int));
            let ghost w1 = add_wins(wv, rule_index(c, e.0, e.1, true), e.2);
            match hit_div {
                Some(d) => {
                    assert(rule_index(c, e.0, e.1, true) == Some(d as nat));
                    if d < division_wins.len() {
                        let updated = add_to_tally(division_wins[d], count as u128);
                        division_wins[d] = updated;
                        assert(division_wins@ == wv.update(d as int, updated));
                    }
                    if d == 0 {
                        has_div1 = true;
                    }
                },
                None => {},
            }
            assert(division_wins@ == w1);
            match miss_div {
                Some(d) => {
                    if d < division_wins.len() {
                        assert(variants >= 1) by {
                            assert(rule_index(c, dist[i as int].0, dist[i as int].1, false) == Some(d as nat));
                        }
                        let extra = wide_mul(count, variants - 1);
                        let updated = add_to_tally(division_wins[d], extra);
                        division_wins[d] = updated;
                    }
                    if d == 0 && variants > 1 {
                        has_div1 = true;
                    }
                },
                None => {},
            }
        } else {
            let (prize, div) = prize_for_counts(cfg, matches, supp_matches, cfg.has_powerball && pb_matched);
            let line_total = wide_mul(prize, count);
            assert(line_total == e.2 * prize_amount(c, e.0, e.1, line_pb(c, pb_matched))) by (nonlinear_arith)
                requires
                    line_total == prize * count,
                    prize == prize_amount(c, e.0, e.1, line_pb(c, pb_matched)),
                    count == e.2,
            ;
            proof {
                lemma_capped_add(tv as int, line_total as int, u128::MAX as int);
            }
            total_prize = total_prize.saturating_add(line_total);
            match div {
                Some(d) => {
                    if d < division_wins.len() {
                        let updated = add_to_tally(division_wins[d], count as u128);
                        division_wins[d] = updated;
                    }
                    if d == 0 {
                        has_div1 = true;
                    }
                },
                None => {},
            }
        }
        proof {
            let p1 = dist.take(i + 1);
            assert(p1[i as int] == e);
            if has_div1 {
                if !any_div1(c, is_powerhit, pb_matched, prefix) {
                    assert(entry_hits_div1(c, is_powerhit, pb_matched, p1[i as int]));
                }
                assert(any_div1(c, is_powerhit, pb_matched, p1)) by {
                    if any_div1(c, is_powerhit, pb_matched, prefix) {
                        let j = choose|j: int| 0 <= j < prefix.len() && entry_hits_div1(c, is_powerhit, pb_matched, #[trigger] prefix[j]);
                        assert(p1[j] == prefix[j]);
                    }
                }
            } else {
                assert forall|j: int| 0 <= j < p1.len() implies !entry_hits_div1(c, is_powerhit, pb_matched, #[trigger] p1[j]) by {
                    if j < i {
                        assert(p1[j] == prefix[j]);
                    }
                }
            }
        }
        i = i + 1;
    }
    assert(dist.take(n as int) == dist);
    (total_prize, has_div1)
}

} // verus!
