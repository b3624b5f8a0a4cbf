//! Chance: the generator of draws and the weighted choice made with a draw.
//!
//! A search picks the next move to look into at random, a move with a large
//! weight more often than one with a small weight. The draws come from a
//! generator whose whole state is one number, so that a search can be run
//! again from the same seed.

use vstd::prelude::*;

verus! {

/// The state of the generator after the state `s`.
pub open spec fn stepped(s: u64) -> u64 {
    s.wrapping_mul(6_364_136_223_846_793_005u64).wrapping_add(1_442_695_040_888_963_407u64)
}

/// The draw that the generator hands out when it leaves the state `s`.
pub open spec fn drawn(s: u64) -> u64 {
    stepped(s) >> 16u64
}

/// A generator of draws.
#[derive(Debug)]
pub struct Rng {
    /// The state: the seed, or what the last step has made of it.
    pub state: u64,
}

impl Rng {
    /// The generator that starts from `seed`.
    pub fn new(seed: u64) -> (r: Rng)
        ensures
            r.state == seed,
    {
        Rng { state: seed }
    }

    /// Hands out the next draw.
    pub fn next(&mut self) -> (draw: u64)
        ensures
            draw == drawn(old(self).state),
            final(self).state == stepped(old(self).state),
    {
        let s: u64 = self.state.wrapping_mul(6_364_136_223_846_793_005u64).wrapping_add(
            1_442_695_040_888_963_407u64,
        );
        self.state = s;
        s >> 16u64
    }
}

/// Sum of the first `k` weights.
pub open spec fn sum_upto(w: Seq<u64>, k: int) -> int
    decreases k,
{
    if k <= 0 {
        0
    } else {
        sum_upto(w, k - 1) + w[k - 1]
    }
}

/// Sum of all weights.
pub open spec fn sum_all(w: Seq<u64>) -> int {
    sum_upto(w, w.len() as int)
}

/// Place `k` is what the draw picks among the weights. The weights lie side
/// by side on a line, and the draw, reduced to the length of the line, falls
/// on the stretch of weight `k`. Where all weights are zero, every place is
/// as likely as any other: the draw is reduced to the number of places.
pub open spec fn picked(w: Seq<u64>, draw: u64, k: int) -> bool {
    &&& 0 <= k < w.len()
    &&& sum_all(w) == 0 ==> k == draw as int % (w.len() as int)
    &&& sum_all(w) > 0 ==> sum_upto(w, k) <= draw as int % sum_all(w) < sum_upto(w, k + 1)
}

/// The sums of the weights do not fall.
pub proof fn lemma_sums_rise(w: Seq<u64>, j: int, k: int)
    requires
        0 <= j <= k,
    ensures
        0 <= sum_upto(w, j) <= sum_upto(w, k),
    decreases k,
{
    if k > 0 {
        if j < k {
            lemma_sums_rise(w, j, k - 1);
        } else {
            lemma_sums_rise(w, j - 1, k - 1);
        }
    }
}

/// A draw picks one place only.
pub proof fn lemma_pick_unique(w: Seq<u64>, draw: u64, j: int, k: int)
    requires
        picked(w, draw, j),
        picked(w, draw, k),
    ensures
        j == k,
{
    lemma_sums_rise(w, 0, w.len() as int);
    if sum_all(w) > 0 {
        if j < k {
            lemma_sums_rise(w, j + 1, k);
        } else if k < j {
            lemma_sums_rise(w, k + 1, j);
        }
    }
}

/// A draw never picks a place of weight zero while another place has weight.
pub proof fn lemma_pick_has_weight(w: Seq<u64>, draw: u64, k: int)
    requires
        picked(w, draw, k),
        sum_all(w) > 0,
    ensures
        w[k] > 0,
{
}

/// Every place that has weight is picked by some draw, as long as the
/// weights together stay inside the range of a draw.
pub proof fn lemma_pick_reaches(w: Seq<u64>, k: int) -> (draw: u64)
    requires
        0 <= k < w.len(),
        w[k] > 0,
        sum_all(w) <= u64::MAX,
    ensures
        picked(w, draw, k),
{
    lemma_sums_rise(w, 0, k);
    lemma_sums_rise(w, k + 1, w.len() as int);
    let t = sum_upto(w, k);
    assert(t % sum_all(w) == t) by {
        vstd::arithmetic::div_mod::lemma_small_mod(t as nat, sum_all(w) as nat);
    }
    t as u64
}

/// Where all weights are zero, every place is picked by some draw.
pub proof fn lemma_pick_reaches_evenly(w: Seq<u64>, k: int) -> (draw: u64)
    requires
        0 <= k < w.len(),
        sum_all(w) == 0,
        w.len() <= u64::MAX,
    ensures
        picked(w, draw, k),
{
    assert(k % (w.len() as int) == k) by {
        vstd::arithmetic::div_mod::lemma_small_mod(k as nat, w.len());
    }
    k as u64
}

/// Picks a place among the weights with a draw.
pub fn weighted_pick(weights: &Vec<u64>, draw: u64) -> (k: usize)
    requires
        weights@.len() > 0,
    ensures
        picked(weights@, draw, k as int),
{
    let n: usize = weights.len();
    let mut total: u128 = 0;
    let mut i: usize = 0;
    while i < n
        invariant
            n == weights@.len(),
            i <= n,
            total == sum_upto(weights@, i as int),
            total <= i * u64::MAX,
        decreases n - i,
    {
        proof {
            assert((i + 1) * u64::MAX == i * u64::MAX + u64::MAX) by (nonlinear_arith);
            assert(i * u64::MAX <= u64::MAX * u64::MAX) by (nonlinear_arith)
                requires
                    i <= u64::MAX,
            ;
        }
        total = total + weights[i] as u128;
        i += 1;
    }
    if total == 0 {
        return (draw % (n as u64)) as usize;
    }
    let target: u128 = (draw as u128) % total;
    let mut acc: u128 = 0;
    let mut k: usize = 0;
    proof {
        lemma_sums_rise(weights@, 1, n as int);
        assert(sum_upto(weights@, 0) == 0);
        assert(sum_upto(weights@, 1) == weights@[0]);
    }
    while k + 1 < n && acc + weights[k] as u128 <= target
        invariant
            n == weights@.len(),
            k < n,
            total == sum_all(weights@),
            acc == sum_upto(weights@, k as int),
            acc <= target < total,
            acc + weights@[k as int] <= total,
        decreases n - k,
    {
        acc = acc + weights[k] as u128;
        k += 1;
        proof {
            lemma_sums_rise(weights@, k as int + 1, n as int);
        }
    }
    k
}

} // verus!
