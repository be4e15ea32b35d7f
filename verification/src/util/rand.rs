//! Drawing one of several choices, each as often as its weight says.

use crate::util::seqs::lemma_take_step;
use vstd::prelude::*;

verus! {

/// The sum of the weights.
pub open spec fn weight_sum(weights: Seq<u32>) -> nat
    decreases weights.len(),
{
    if weights.len() == 0 {
        0
    } else {
        weight_sum(weights.drop_last()) + weights.last() as nat
    }
}

/// The draw `t` falls on the choice `i`: the weights before `i` sum to `t`
/// at most, and with that of `i` to more.
pub open spec fn falls_on(weights: Seq<u32>, t: nat, i: int) -> bool {
    &&& 0 <= i < weights.len()
    &&& weight_sum(weights.take(i)) <= t < weight_sum(weights.take(i + 1))
}

/// The weights up to a place sum to no more than all of them, and to no more
/// than as many times the largest number of their type.
pub proof fn lemma_weight_sum_bounds(weights: Seq<u32>, i: int)
    requires
        0 <= i <= weights.len(),
    ensures
        weight_sum(weights.take(i)) <= weight_sum(weights),
        weight_sum(weights.take(i)) <= i * 0xffff_ffff,
    decreases weights.len() - i,
{
    lemma_weight_sum_cap(weights.take(i));
    if i == weights.len() {
        assert(weights.take(i) =~= weights);
    } else {
        lemma_weight_sum_bounds(weights, i + 1);
        lemma_take_step(weights, i);
        assert(weights.take(i + 1).drop_last() =~= weights.take(i));
    }
}

/// Weights sum to no more than as many times the largest number of their
/// type.
proof fn lemma_weight_sum_cap(weights: Seq<u32>)
    ensures
        weight_sum(weights) <= weights.len() * 0xffff_ffff,
    decreases weights.len(),
{
    if weights.len() > 0 {
        lemma_weight_sum_cap(weights.drop_last());
    }
}

/// One draw falls on one choice only.
pub proof fn lemma_falls_on_one(weights: Seq<u32>, t: nat, i: int, j: int)
    requires
        falls_on(weights, t, i),
        falls_on(weights, t, j),
    ensures
        i == j,
{
    if i < j {
        lemma_weight_sum_bounds(weights.take(j), i + 1);
        assert(weights.take(j).take(i + 1) =~= weights.take(i + 1));
    }
    if j < i {
        lemma_weight_sum_bounds(weights.take(i), j + 1);
        assert(weights.take(i).take(j + 1) =~= weights.take(j + 1));
    }
}

/// A draw falls only on a choice that has weight.
pub proof fn lemma_falls_on_weight(weights: Seq<u32>, t: nat, i: int)
    requires
        falls_on(weights, t, i),
    ensures
        weights[i] > 0,
{
    lemma_take_step(weights, i);
    assert(weights.take(i + 1).drop_last() =~= weights.take(i));
}

/// The sum of the weights.
pub fn total_weight(weights: &[u32]) -> (total: u128)
    ensures
        total == weight_sum(weights@),
{
    let mut total: u128 = 0;
    let mut i: usize = 0;
    while i < weights.len()
        invariant
            i <= weights.len(),
            total == weight_sum(weights@.take(i as int)),
        decreases weights.len() - i,
    {
        proof {
            lemma_weight_sum_bounds(weights@, i as int);
            lemma_take_step(weights@, i as int);
            assert(weights@.take(i + 1).drop_last() =~= weights@.take(i as int));
            assert(i * 0xffff_ffff <= 0xffff_ffff_ffff_ffff * 0xffff_ffff) by (nonlinear_arith)
                requires
                    i <= 0xffff_ffff_ffff_ffff,
            ;
        }
        total = total + weights[i] as u128;
        i += 1;
    }
    assert(weights@.take(weights.len() as int) =~= weights@);
    total
}

/// The place of the choice that the draw `t` falls on.
pub fn pick(weights: &[u32], t: u128) -> (i: usize)
    requires
        t < weight_sum(weights@),
    ensures
        falls_on(weights@, t as nat, i as int),
{
    let mut sum: u128 = 0;
    let mut i: usize = 0;
    loop
        invariant
            i <= weights.len(),
            sum == weight_sum(weights@.take(i as int)),
            sum <= t < weight_sum(weights@),
        decreases weights.len() - i,
    {
        proof {
            if i == weights.len() {
                assert(weights@.take(i as int) =~= weights@);
            }
            lemma_weight_sum_bounds(weights@, i + 1);
            lemma_take_step(weights@, i as int);
            assert(weights@.take(i + 1).drop_last() =~= weights@.take(i as int));
        }
        sum = sum + weights[i] as u128;
        if sum > t {
            return i;
        }
        i += 1;
    }
}

/// `rand::random_range` on the numbers from 0 up to `bound`, without
/// `bound`: one of them, a new one at every call. Nothing is claimed of
/// which.
#[verifier::external_body]
fn random_below(bound: u128) -> (t: u128)
    requires
        bound > 0,
    ensures
        t < bound,
{
    ::rand::random_range(0..bound)
}

/// The choice that the draw `t` falls on.
pub fn choice_at<'a, T>(choices: &'a [T], weights: &[u32], t: u128) -> (chosen: &'a T)
    requires
        choices@.len() == weights@.len(),
        t < weight_sum(weights@),
    ensures
        exists|i: int| falls_on(weights@, t as nat, i) && *chosen == choices@[i],
{
    let i = pick(weights, t);
    &choices[i]
}

/// Draws one of `choices`, each as often as its weight says against the
/// others. What comes back has weight.
pub fn choice<'a, T>(choices: &'a [T], weights: &[u32]) -> (chosen: &'a T)
    requires
        choices@.len() == weights@.len(),
        weight_sum(weights@) > 0,
    ensures
        exists|i: int| 0 <= i < choices@.len() && weights@[i] > 0 && *chosen == choices@[i],
{
    let total = total_weight(weights);
    let t = random_below(total);
    let chosen = choice_at(choices, weights, t);
    proof {
        let i = choose|i: int| falls_on(weights@, t as nat, i) && *chosen == choices@[i];
        lemma_falls_on_weight(weights@, t as nat, i);
    }
    chosen
}

/// Draws one of the places `0` to `len - 1`, each as often as the others.
pub fn draw_index(len: usize) -> (i: usize)
    requires
        len > 0,
    ensures
        i < len,
{
    let t = random_below(len as u128);
    t as usize
}

} // verus!
