//! Counting arguments behind the hot-number auto-pick: how many numbers it
//! picks.
use vstd::prelude::*;

use crate::app_state::{count_above, count_tied, freq_of, surely_cold, surely_hot};

verus! {

/// How many of the numbers `1..=n` satisfy `p`.
pub open spec fn count_of(n: nat, p: spec_fn(int) -> bool) -> nat
    decreases n,
{
    if n == 0 {
        0
    } else {
        count_of((n - 1) as nat, p) + if p(n as int) {
            1nat
        } else {
            0nat
        }
    }
}

pub proof fn lemma_count_ext(n: nat, p: spec_fn(int) -> bool, q: spec_fn(int) -> bool)
    requires
        forall|j: int| 1 <= j <= n ==> #[trigger] p(j) == q(j),
    ensures
        count_of(n, p) == count_of(n, q),
    decreases n,
{
    if n > 0 {
        lemma_count_ext((n - 1) as nat, p, q);
    }
}

pub proof fn lemma_count_mono(n: nat, p: spec_fn(int) -> bool, q: spec_fn(int) -> bool)
    requires
        forall|j: int| 1 <= j <= n && #[trigger] p(j) ==> q(j),
    ensures
        count_of(n, p) <= count_of(n, q),
    decreases n,
{
    if n > 0 {
        lemma_count_mono((n - 1) as nat, p, q);
    }
}

pub proof fn lemma_count_bound(n: nat, p: spec_fn(int) -> bool)
    ensures
        count_of(n, p) <= n,
    decreases n,
{
    if n > 0 {
        lemma_count_bound((n - 1) as nat, p);
    }
}

pub proof fn lemma_count_all(n: nat, p: spec_fn(int) -> bool)
    requires
        forall|j: int| 1 <= j <= n ==> #[trigger] p(j),
    ensures
        count_of(n, p) == n,
    decreases n,
{
    if n > 0 {
        lemma_count_all((n - 1) as nat, p);
    }
}

pub proof fn lemma_count_none(n: nat, p: spec_fn(int) -> bool)
    requires
        forall|j: int| 1 <= j <= n ==> !#[trigger] p(j),
    ensures
        count_of(n, p) == 0,
    decreases n,
{
    if n > 0 {
        lemma_count_none((n - 1) as nat, p);
    }
}

/// Adding one number that was not counted counts one more.
pub proof fn lemma_count_insert(n: nat, p: spec_fn(int) -> bool, x: int)
    requires
        1 <= x <= n,
        !p(x),
    ensures
        count_of(n, |q: int| p(q) || q == x) == count_of(n, p) + 1,
    decreases n,
{
    if x < n {
        lemma_count_insert((n - 1) as nat, p, x);
    } else {
        lemma_count_ext((n - 1) as nat, |q: int| p(q) || q == x, p);
    }
}

/// Counting a union of disjoint sets.
pub proof fn lemma_count_disjoint(n: nat, p: spec_fn(int) -> bool, q: spec_fn(int) -> bool)
    requires
        forall|j: int| 1 <= j <= n ==> !(#[trigger] p(j) && q(j)),
    ensures
        count_of(n, |j: int| p(j) || q(j)) == count_of(n, p) + count_of(n, q),
    decreases n,
{
    if n > 0 {
        lemma_count_disjoint((n - 1) as nat, p, q);
    }
}

/// Some number of `1..=n` satisfying `p` is drawn least often among them.
pub proof fn lemma_least(freq: Seq<u64>, n: nat, p: spec_fn(int) -> bool) -> (m: int)
    requires
        exists|j: int| 1 <= j <= n && #[trigger] p(j),
    ensures
        1 <= m <= n,
        p(m),
        forall|j: int| 1 <= j <= n && #[trigger] p(j) ==> freq_of(freq, j) >= freq_of(freq, m),
    decreases n,
{
    if exists|j: int| 1 <= j <= n - 1 && #[trigger] p(j) {
        let m0 = lemma_least(freq, (n - 1) as nat, p);
        if p(n as int) && freq_of(freq, n as int) < freq_of(freq, m0) {
            n as int
        } else {
            m0
        }
    } else {
        let j = choose|j: int| 1 <= j <= n && #[trigger] p(j);
        assert(j == n);
        n as int
    }
}

/// Some number of `1..=n` satisfying `p` is drawn most often among them.
pub proof fn lemma_most(freq: Seq<u64>, n: nat, p: spec_fn(int) -> bool) -> (m: int)
    requires
        exists|j: int| 1 <= j <= n && #[trigger] p(j),
    ensures
        1 <= m <= n,
        p(m),
        forall|j: int| 1 <= j <= n && #[trigger] p(j) ==> freq_of(freq, j) <= freq_of(freq, m),
    decreases n,
{
    if exists|j: int| 1 <= j <= n - 1 && #[trigger] p(j) {
        let m0 = lemma_most(freq, (n - 1) as nat, p);
        if p(n as int) && freq_of(freq, n as int) > freq_of(freq, m0) {
            n as int
        } else {
            m0
        }
    } else {
        let j = choose|j: int| 1 <= j <= n && #[trigger] p(j);
        assert(j == n);
        n as int
    }
}

pub proof fn lemma_above_is_count(freq: Seq<u64>, n: nat, v: nat)
    ensures
        count_above(freq, n, v) == count_of(n, |j: int| freq_of(freq, j) > v),
        count_tied(freq, n, v) == count_of(n, |j: int| freq_of(freq, j) == v),
        count_above(freq, n, v) + count_tied(freq, n, v) == count_of(n, |j: int| freq_of(freq, j) >= v),
    decreases n,
{
    if n > 0 {
        lemma_above_is_count(freq, (n - 1) as nat, v);
    }
}

/// Drawn less often than `v` means more numbers were drawn more often.
pub proof fn lemma_above_grows(freq: Seq<u64>, n: nat, v: nat, w: nat)
    requires
        w < v,
    ensures
        count_above(freq, n, w) >= count_above(freq, n, v) + count_tied(freq, n, v),
    decreases n,
{
    if n > 0 {
        lemma_above_grows(freq, (n - 1) as nat, v, w);
    }
}

proof fn lemma_tied_self(freq: Seq<u64>, n: nat, i: int)
    requires
        1 <= i <= n,
    ensures
        count_tied(freq, n, freq_of(freq, i)) >= 1,
    decreases n,
{
    if i < n {
        lemma_tied_self(freq, (n - 1) as nat, i);
    }
}

/// A surely hot number is never surely cold, when anything is picked.
pub proof fn lemma_hot_not_cold(freq: Seq<u64>, pool: nat, pick: nat, i: int)
    requires
        1 <= i <= pool,
        pick > 0,
        surely_hot(freq, pool, pick, i),
    ensures
        !surely_cold(freq, pool, pick, i),
{
    lemma_tied_self(freq, pool, i);
}

/// Neither surely hot nor surely cold: in the group that does not fit.
pub open spec fn in_cut(freq: Seq<u64>, pool: nat, pick: nat, i: int) -> bool {
    !surely_hot(freq, pool, pick, i) && !surely_cold(freq, pool, pick, i)
}

/// How many numbers the auto-pick takes: all the surely hot ones, and as
/// many of the group that does not fit as are missing; that is the pick
/// count, or the whole pool when it is smaller.
pub proof fn lemma_pick_size(freq: Seq<u64>, pool: nat, pick: nat)
    requires
        pick > 0,
    ensures
        ({
            let hot = count_of(pool, |j: int| surely_hot(freq, pool, pick, j));
            let cut = count_of(pool, |j: int| in_cut(freq, pool, pick, j));
            &&& hot <= pick
            &&& hot + (if (pick - hot) as nat <= cut {
                (pick - hot) as nat
            } else {
                cut
            }) == if pick <= pool {
                pick
            } else {
                pool
            }
        }),
{
    let hotp = |j: int| surely_hot(freq, pool, pick, j);
    let coldp = |j: int| surely_cold(freq, pool, pick, j);
    let cutp = |j: int| in_cut(freq, pool, pick, j);
    if exists|i: int| 1 <= i <= pool && #[trigger] cutp(i) {
        let i = choose|i: int| 1 <= i <= pool && #[trigger] cutp(i);
        let v = freq_of(freq, i);
        let greater = |j: int| freq_of(freq, j) > v;
        let equal = |j: int| freq_of(freq, j) == v;
        assert forall|j: int| #![trigger hotp(j)] #![trigger cutp(j)] 1 <= j <= pool implies hotp(j) == greater(j) && cutp(j) == equal(j) by {
            let fj = freq_of(freq, j);
            if fj > v {
                lemma_above_grows(freq, pool, fj, v);
            } else if fj < v {
                lemma_above_grows(freq, pool, v, fj);
                lemma_tied_self(freq, pool, j);
            }
        }
        lemma_count_ext(pool, hotp, greater);
        lemma_count_ext(pool, cutp, equal);
        lemma_above_is_count(freq, pool, v);
        lemma_count_bound(pool, |j: int| freq_of(freq, j) >= v);
    } else {
        lemma_count_none(pool, cutp);
        if pick >= pool {
            assert forall|j: int| 1 <= j <= pool implies #[trigger] hotp(j) by {
                let fj = freq_of(freq, j);
                lemma_above_is_count(freq, pool, fj);
                lemma_count_bound(pool, |k: int| freq_of(freq, k) >= fj);
            }
            lemma_count_all(pool, hotp);
        } else {
            // Some number is not surely hot: the least drawn one.
            let all = |j: int| true;
            assert(all(1));
            let m = lemma_least(freq, pool, all);
            let fm = freq_of(freq, m);
            lemma_above_is_count(freq, pool, fm);
            let at_least = |k: int| freq_of(freq, k) >= fm;
            assert forall|k: int| 1 <= k <= pool implies #[trigger] at_least(k) by {
                assert(all(k));
            }
            lemma_count_all(pool, at_least);
            assert(!hotp(m));
            assert(!cutp(m));
            assert(coldp(m));
            // The most drawn surely cold number splits hot from cold.
            let e = lemma_most(freq, pool, coldp);
            let fe = freq_of(freq, e);
            let greater = |j: int| freq_of(freq, j) > fe;
            assert forall|j: int| 1 <= j <= pool implies #[trigger] hotp(j) == greater(j) by {
                let fj = freq_of(freq, j);
                if fj > fe {
                    assert(!coldp(j));
                    assert(!cutp(j));
                } else if fj < fe {
                    lemma_above_grows(freq, pool, fe, fj);
                    lemma_tied_self(freq, pool, j);
                } else {
                    lemma_tied_self(freq, pool, j);
                }
            }
            lemma_count_ext(pool, hotp, greater);
            lemma_above_is_count(freq, pool, fe);
            let hot = count_of(pool, hotp);
            assert(hot >= pick);
            // The least drawn surely hot number bounds the hot count.
            assert(exists|j: int| 1 <= j <= pool && #[trigger] hotp(j)) by {
                if !exists|j: int| 1 <= j <= pool && #[trigger] hotp(j) {
                    lemma_count_none(pool, hotp);
                }
            }
            let h = lemma_least(freq, pool, hotp);
            let fh = freq_of(freq, h);
            lemma_above_is_count(freq, pool, fh);
            lemma_count_mono(pool, hotp, |k: int| freq_of(freq, k) >= fh);
        }
    }
}

} // verus!
