use vstd::prelude::*;

use crate::game::Action;
use crate::tally::{lookup, lemma_lookup_bounds, ActionScores};

verus! {

/// Fixed-point scale of the selection scores: values carry 16 fractional
/// bits, so a score of `SCALE` stands for 1.
pub const SCALE: u64 = 65536;

/// `ln 2` in the same fixed point: `round(ln 2 * SCALE)`.
pub const LN2_FP: u64 = 45426;

/// The score of a never-visited action: larger than every finite selection
/// score, so unvisited actions are always preferred.
pub const INFINITE_SCORE: i64 = 0x7fff_ffff_ffff_ffff;

/// `floor(sqrt(n))`.
pub open spec fn sqrt_floor(n: nat) -> nat
    decreases n,
{
    if n == 0 {
        0
    } else {
        let s = sqrt_floor((n - 1) as nat);
        if (s + 1) * (s + 1) <= n {
            s + 1
        } else {
            s
        }
    }
}

/// `floor(log2(n))` for `n >= 1`, and 0 for `n <= 1`.
pub open spec fn log2_floor(n: nat) -> nat
    decreases n,
{
    if n <= 1 {
        0
    } else {
        1 + log2_floor(n / 2)
    }
}

/// `ln n` in fixed point, approximated from the floor of `log2(n)`.
pub open spec fn ln_fp(n: nat) -> nat {
    log2_floor(n) * (LN2_FP as nat)
}

/// The exploration term `sqrt(2 * ln(total) / visits)` in fixed point.
pub open spec fn explore_fp(total: nat, visits: nat) -> nat {
    sqrt_floor(((2 * ln_fp(total) * SCALE) as int / visits as int) as nat)
}

/// The exploitation term `(reward + 1) / (visits + 2)` in fixed point: the
/// Laplace-smoothed mean of a reward lying in `[-1, 1]`.
pub open spec fn exploit_fp(visits: nat, reward: int) -> int {
    ((reward + visits + 3) * (SCALE as int)) / (visits as int + 2) - SCALE as int
}

/// The finite selection score of a visited action.
pub open spec fn finite_score(total: nat, visits: nat, reward: int) -> int {
    explore_fp(total, visits) + exploit_fp(visits, reward)
}

/// The selection score of an action: unvisited actions score above every
/// visited one, else exploration plus exploitation.
pub open spec fn sel_score(total: nat, visits: nat, reward: int) -> int {
    if visits == 0 {
        INFINITE_SCORE as int
    } else {
        finite_score(total, visits, reward)
    }
}

/// The selection score of `x` against the visit records `s`.
pub open spec fn score_of(s: Seq<(Action, (u64, i64))>, total: nat, x: Action) -> int {
    sel_score(total, lookup(s, x).0 as nat, lookup(s, x).1 as int)
}

/// The sum of the recorded visit counts of the first `i` candidates.
pub open spec fn total_visits_upto(s: Seq<(Action, (u64, i64))>, acts: Seq<Action>, i: int) -> int
    decreases i,
{
    if i <= 0 {
        0
    } else {
        total_visits_upto(s, acts, i - 1) + lookup(s, acts[i - 1]).0
    }
}

/// The total visit count over all candidates, saturated at the counter's
/// cap (unreachable in practice).
pub open spec fn sat_total(s: Seq<(Action, (u64, i64))>, acts: Seq<Action>) -> nat {
    let t = total_visits_upto(s, acts, acts.len() as int);
    if t <= u64::MAX {
        t as nat
    } else {
        u64::MAX as nat
    }
}

/// The partial sums of visit counts grow with the prefix length.
proof fn lemma_total_visits_monotone(
    s: Seq<(Action, (u64, i64))>,
    acts: Seq<Action>,
    i: int,
    j: int,
)
    requires
        0 <= i <= j,
    ensures
        total_visits_upto(s, acts, i) <= total_visits_upto(s, acts, j),
    decreases j - i,
{
    if i < j {
        lemma_total_visits_monotone(s, acts, i, j - 1);
    }
}

proof fn lemma_sqrt_floor_bounds(n: nat)
    ensures
        sqrt_floor(n) * sqrt_floor(n) <= n,
        n < (sqrt_floor(n) + 1) * (sqrt_floor(n) + 1),
    decreases n,
{
    if n == 0 {
        assert(sqrt_floor(0) == 0);
        assert((0 + 1) * (0 + 1) == 1) by (nonlinear_arith);
    } else {
        lemma_sqrt_floor_bounds((n - 1) as nat);
        let s = sqrt_floor((n - 1) as nat);
        if (s + 1) * (s + 1) <= n {
            assert(sqrt_floor(n) == s + 1);
            assert(n < (s + 2) * (s + 2)) by (nonlinear_arith)
                requires
                    n <= (s + 1) * (s + 1) + 1,
                    (s + 1) * (s + 1) <= n,
            ;
        } else {
            assert(sqrt_floor(n) == s);
        }
    }
}

proof fn lemma_sqrt_floor_unique(n: nat, r: nat)
    requires
        r * r <= n,
        n < (r + 1) * (r + 1),
    ensures
        r == sqrt_floor(n),
{
    lemma_sqrt_floor_bounds(n);
    let s = sqrt_floor(n);
    if r < s {
        assert((r + 1) * (r + 1) <= s * s) by (nonlinear_arith)
            requires
                r + 1 <= s,
        ;
    }
    if s < r {
        assert((s + 1) * (s + 1) <= r * r) by (nonlinear_arith)
            requires
                s + 1 <= r,
        ;
    }
}

proof fn lemma_log2_pow2(n: nat)
    requires
        n >= 1,
    ensures
        vstd::arithmetic::power2::pow2(log2_floor(n)) <= n,
    decreases n,
{
    vstd::arithmetic::power2::lemma2_to64();
    if n <= 1 {
    } else {
        lemma_log2_pow2(n / 2);
        vstd::arithmetic::power2::lemma_pow2_unfold(log2_floor(n));
    }
}

proof fn lemma_log2_u64(n: nat)
    requires
        1 <= n <= u64::MAX,
    ensures
        log2_floor(n) <= 63,
{
    lemma_log2_pow2(n);
    if log2_floor(n) > 64 {
        vstd::arithmetic::power2::lemma_pow2_strictly_increases(64, log2_floor(n));
        vstd::arithmetic::power2::lemma2_to64_rest();
        assert(false);
    }
    if log2_floor(n) == 64 {
        vstd::arithmetic::power2::lemma2_to64_rest();
        assert(false);
    }
}

/// `floor(sqrt(x))` by bisection.
#[verifier::loop_isolation(false)]
fn isqrt(x: u64) -> (r: u64)
    ensures
        r == sqrt_floor(x as nat),
{
    if x == 0 {
        proof {
            assert(sqrt_floor(0) == 0);
        }
        return 0;
    }
    let mut lo: u64 = 0;
    let mut hi: u64 = 4294967296;
    while lo + 1 < hi
        invariant
            lo < hi <= 4294967296,
            (lo as int) * (lo as int) <= x as int,
            (hi as int) * (hi as int) > x as int,
        decreases hi - lo,
    {
        let mid = lo + (hi - lo) / 2;
        proof {
            assert((mid as int) * (mid as int) < 0x10000000000000000) by (nonlinear_arith)
                requires
                    0 <= mid < 4294967296,
            ;
        }
        if mid * mid <= x {
            lo = mid;
        } else {
            hi = mid;
        }
    }
    proof {
        lemma_sqrt_floor_unique(x as nat, lo as nat);
    }
    lo
}

/// `floor(log2(x))` by repeated halving.
#[verifier::loop_isolation(false)]
fn log2(x: u64) -> (r: u64)
    requires
        x >= 1,
    ensures
        r == log2_floor(x as nat),
        r <= 63,
{
    let mut v: u64 = x;
    let mut r: u64 = 0;
    while v > 1
        invariant
            1 <= v <= x,
            log2_floor(x as nat) == r + log2_floor(v as nat),
            r <= 63,
        decreases v,
    {
        v = v / 2;
        r = r + 1;
        proof {
            lemma_log2_u64(x as nat);
        }
    }
    proof {
        lemma_log2_u64(x as nat);
    }
    r
}

/// The finite fixed-point selection score of a visited action: exploration
/// `sqrt(2 ln(total) / visits)` plus the Laplace-smoothed mean reward
/// `(reward + 1) / (visits + 2)`, both carrying 16 fractional bits.
#[verifier::rlimit(30)]
fn ucb_score(total: u64, visits: u64, reward: i64) -> (s: i64)
    requires
        1 <= visits <= i64::MAX as u64,
        -(visits as int) <= reward <= visits as int,
        total >= 1,
    ensures
        s == finite_score(total as nat, visits as nat, reward as int),
        s < INFINITE_SCORE,
{
    let e = log2(total);
    let lnt: u64 = e * LN2_FP;
    let num: u64 = 2 * lnt * SCALE;
    proof {
        assert(num == 2 * ln_fp(total as nat) * SCALE);
        assert(num < 0x8000000000u64);
    }
    let q: u64 = num / visits;
    proof {
        vstd::arithmetic::div_mod::lemma_div_is_ordered_by_denominator(
            num as int,
            1,
            visits as int,
        );
        vstd::arithmetic::div_mod::lemma_div_basics(num as int);
        assert(q <= num);
    }
    let explore: u64 = isqrt(q);
    proof {
        lemma_sqrt_floor_bounds(q as nat);
        assert(explore < 0x100000) by (nonlinear_arith)
            requires
                (explore as int) * (explore as int) <= q as int,
                q < 0x8000000000,
        ;
    }
    let shifted: u128 = (reward as i128 + visits as i128 + 3) as u128;
    let scaled: u128 = shifted * (SCALE as u128);
    let den: u128 = visits as u128 + 2;
    let q2: u128 = scaled / den;
    proof {
        assert(scaled <= 131072 * den) by (nonlinear_arith)
            requires
                scaled == shifted * 65536,
                den == visits as int + 2,
                shifted <= 2 * (visits as int) + 3,
                visits >= 1,
        ;
        vstd::arithmetic::div_mod::lemma_div_is_ordered(
            scaled as int,
            131072 * (den as int),
            den as int,
        );
        vstd::arithmetic::div_mod::lemma_div_multiples_vanish(131072, den as int);
        assert((den as int) * 131072 == 131072 * (den as int));
        assert(q2 <= 131072);
    }
    let exploit: i64 = (q2 as i64) - (SCALE as i64);
    proof {
        assert(exploit == exploit_fp(visits as nat, reward as int));
    }
    explore as i64 + exploit
}

/// Relies on rand::Rng::gen_range over rand::rngs::OsRng, the operating
/// system's entropy source: returns a value drawn uniformly below `n`. It
/// panics only on an empty range, which the requires excludes.
#[verifier::external_body]
pub(crate) fn random_below(n: u64) -> (r: u64)
    requires
        n >= 1,
    ensures
        r < n,
{
    rand::Rng::gen_range(&mut rand::rngs::OsRng, 0..n)
}

/// Pick the next action to explore at a node: a candidate of maximal
/// selection score. A never-visited candidate scores above every visited
/// one, so one of those is returned whenever any exists; exact ties of
/// finite scores are broken uniformly at random by reservoir sampling.
#[verifier::loop_isolation(false)]
pub fn choose_child(tally: &ActionScores, actions: &Vec<Action>) -> (a: Action)
    requires
        tally.wf(),
        actions@.len() >= 1,
    ensures
        actions@.contains(a),
        forall|i: int|
            0 <= i < actions@.len() ==> score_of(
                tally.visits@,
                sat_total(tally.visits@, actions@),
                #[trigger] actions@[i],
            ) <= score_of(tally.visits@, sat_total(tally.visits@, actions@), a),
        (exists|i: int|
            0 <= i < actions@.len() && lookup(tally.visits@, #[trigger] actions@[i]).0 == 0)
            ==> lookup(tally.visits@, a).0 == 0,
        forall|i: int|
            0 <= i < actions@.len() && lookup(tally.visits@, #[trigger] actions@[i]).0 == 0 && (
            forall|k: int| 0 <= k < i ==> lookup(tally.visits@, #[trigger] actions@[k]).0 != 0)
                ==> a == actions@[i],
{
    let ghost s = tally.visits@;
    let n = actions.len();
    let mut total: u64 = 0;
    let mut i: usize = 0;
    while i < n
        invariant
            i <= n,
            total as int == (if total_visits_upto(s, actions@, i as int) <= u64::MAX {
                total_visits_upto(s, actions@, i as int)
            } else {
                u64::MAX as int
            }),
        decreases n - i,
    {
        let act_i = actions[i];
        let (v, _) = tally.get_visit(&act_i);
        if total > u64::MAX - v {
            total = u64::MAX;
        } else {
            total = total + v;
        }
        i = i + 1;
    }
    let ghost tot = sat_total(s, actions@);
    proof {
        assert(total as int == tot as int);
    }
    let total_for_score: u64 = if total == 0 {
        1
    } else {
        total
    };
    let mut choice: Action = actions[0];
    let mut have_choice = false;
    let mut best: i64 = 0;
    let mut num_optimal: u64 = 0;
    // index of the first never-visited candidate seen so far, or -1
    let ghost mut fu: int = -1;
    let mut j: usize = 0;
    while j < n
        invariant
            j <= n,
            have_choice == (j > 0),
            have_choice ==> actions@.contains(choice),
            have_choice ==> best == score_of(s, tot, choice),
            have_choice ==> num_optimal >= 1,
            forall|k: int| 0 <= k < j ==> score_of(s, tot, #[trigger] actions@[k]) <= best,
            best == INFINITE_SCORE && have_choice ==> lookup(s, choice).0 == 0,
            fu == -1 || 0 <= fu < j,
            fu == -1 ==> forall|k: int| 0 <= k < j ==> lookup(s, #[trigger] actions@[k]).0 != 0,
            fu == -1 && have_choice ==> best < INFINITE_SCORE,
            fu >= 0 ==> 0 <= fu < j && lookup(s, actions@[fu]).0 == 0 && (forall|k: int|
                0 <= k < fu ==> lookup(s, #[trigger] actions@[k]).0 != 0) && choice == actions@[fu]
                && best == INFINITE_SCORE && have_choice,
        decreases n - j,
    {
        let act = actions[j];
        let (v, r) = tally.get_visit(&act);
        let score: i64;
        if v == 0 {
            score = INFINITE_SCORE;
            proof {
                assert(score == score_of(s, tot, act));
            }
        } else {
            proof {
                lemma_lookup_bounds(s, act);
                if total == 0 {
                    lemma_total_visits_monotone(s, actions@, 0, j as int);
                    lemma_total_visits_monotone(s, actions@, j + 1, actions@.len() as int);
                    assert(total_visits_upto(s, actions@, j + 1) == total_visits_upto(
                        s,
                        actions@,
                        j as int,
                    ) + lookup(s, actions@[j as int]).0);
                    assert(false);
                }
            }
            score = ucb_score(total_for_score, v, r);
            proof {
                assert(score == score_of(s, tot, act));
            }
        }
        if !have_choice || score > best {
            choice = act;
            have_choice = true;
            num_optimal = 1;
            best = score;
        } else if score == best && score < INFINITE_SCORE {
            if num_optimal < u64::MAX {
                num_optimal = num_optimal + 1;
            }
            if random_below(num_optimal) == 0 {
                choice = act;
            }
        }
        proof {
            assert(actions@[j as int] == act);
            if v == 0 && fu == -1 {
                fu = j as int;
            }
        }
        j = j + 1;
    }
    proof {
        if exists|k: int|
            0 <= k < actions@.len() && lookup(s, #[trigger] actions@[k]).0 == 0 {
            let w = choose|k: int|
                0 <= k < actions@.len() && lookup(s, #[trigger] actions@[k]).0 == 0;
            assert(score_of(s, tot, actions@[w]) == INFINITE_SCORE as int);
            assert(best == INFINITE_SCORE);
        }
        assert forall|i: int|
            0 <= i < actions@.len() && lookup(s, #[trigger] actions@[i]).0 == 0 && (forall|k: int|
                0 <= k < i ==> lookup(s, #[trigger] actions@[k]).0 != 0) implies choice
            == actions@[i] by {
            assert(fu != -1);
            if i < fu {
                assert(lookup(s, actions@[i]).0 != 0);
            }
            if fu < i {
                assert(lookup(s, actions@[fu]).0 != 0);
            }
            assert(fu == i);
        }
    }
    choice
}

} // verus!
