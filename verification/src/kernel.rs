//! One-dimensional convolution kernels in fixed point.
//!
//! A kernel is an odd number of non-negative weights, centred on the middle
//! one. A weight counts in units of `1 / KERNEL_ONE`, and the weights of a
//! kernel add up to exactly `KERNEL_ONE`: a weighted mean of samples taken
//! with it stays inside the range of the samples.

use crate::FilterError;
use vstd::arithmetic::div_mod::{lemma_fundamental_div_mod, lemma_mod_pos_bound};
use vstd::prelude::*;

verus! {

/// The fixed-point value of the weight 1.
pub const KERNEL_ONE: u32 = 16_777_216;

/// Sum of the first `n` weights.
pub open spec fn prefix_total(weights: Seq<u32>, n: nat) -> int
    decreases n,
{
    if n == 0 {
        0
    } else {
        prefix_total(weights, (n - 1) as nat) + weights[n - 1]
    }
}

/// Sum of all weights.
pub open spec fn total(weights: Seq<u32>) -> int {
    prefix_total(weights, weights.len())
}

/// Distance from the centre of a kernel to its ends.
pub open spec fn radius_of(weights: Seq<u32>) -> int {
    weights.len() as int / 2
}

/// The weights have a centre and add up to one.
pub open spec fn is_normalized(weights: Seq<u32>) -> bool {
    weights.len() % 2 == 1 && total(weights) == KERNEL_ONE
}

/// The weights read the same from both ends.
pub open spec fn is_symmetric(weights: Seq<u32>) -> bool {
    forall|i: int|
        0 <= i < weights.len() ==> #[trigger] weights[i] == weights[weights.len() - 1 - i]
}

/// The share of raw weight `i` in the sum of all raw weights, in fixed point
/// and rounded down.
pub open spec fn scaled_weight(raw: Seq<u32>, i: int) -> int {
    raw[i] * KERNEL_ONE / total(raw)
}

/// The shares of all raw weights.
pub open spec fn scaled_weights(raw: Seq<u32>) -> Seq<u32> {
    Seq::new(raw.len(), |i: int| scaled_weight(raw, i) as u32)
}

/// The kernel of the raw weights: every weight is its share of the sum, and
/// what rounding down has left over goes to the centre, so that the kernel
/// adds up to exactly one.
pub open spec fn normalized_weights(raw: Seq<u32>) -> Seq<u32> {
    let scaled = scaled_weights(raw);
    let centre = radius_of(raw);
    scaled.update(centre, (KERNEL_ONE - (total(scaled) - scaled[centre])) as u32)
}

/// A sum of weights grows with the number of weights summed.
pub proof fn lemma_prefix_total_monotone(weights: Seq<u32>, m: nat, n: nat)
    requires
        m <= n,
    ensures
        0 <= prefix_total(weights, m) <= prefix_total(weights, n),
    decreases n,
{
    if n == 0 {
    } else if m == n {
        lemma_prefix_total_monotone(weights, 0, (n - 1) as nat);
    } else {
        lemma_prefix_total_monotone(weights, m, (n - 1) as nat);
    }
}

/// No weight is larger than a sum that holds it.
pub proof fn lemma_weight_within_prefix(weights: Seq<u32>, i: int, n: nat)
    requires
        0 <= i < n,
    ensures
        weights[i] <= prefix_total(weights, n),
{
    lemma_prefix_total_monotone(weights, i as nat, (i + 1) as nat);
    lemma_prefix_total_monotone(weights, (i + 1) as nat, n);
}

/// Replacing one weight changes a sum by the difference, if the sum holds
/// that weight.
pub proof fn lemma_prefix_total_update(weights: Seq<u32>, at: int, value: u32, n: nat)
    requires
        0 <= at < weights.len(),
        n <= weights.len(),
    ensures
        prefix_total(weights.update(at, value), n) == prefix_total(weights, n) + (if at < n {
            value - weights[at]
        } else {
            0
        }),
    decreases n,
{
    if n > 0 {
        lemma_prefix_total_update(weights, at, value, (n - 1) as nat);
    }
}

/// A share is between zero and one.
pub proof fn lemma_scaled_weight_bounds(raw: Seq<u32>, i: int)
    requires
        0 <= i < raw.len(),
        0 < total(raw),
    ensures
        0 <= scaled_weight(raw, i) <= KERNEL_ONE,
        scaled_weight(raw, i) * total(raw) <= raw[i] * KERNEL_ONE,
{
    let sum = total(raw);
    let scaled_up = raw[i] * KERNEL_ONE;
    lemma_weight_within_prefix(raw, i, raw.len());
    lemma_fundamental_div_mod(scaled_up, sum);
    lemma_mod_pos_bound(scaled_up, sum);
    let share = scaled_up / sum;
    assert(share * sum == sum * share) by (nonlinear_arith);
    assert(share >= 0) by (nonlinear_arith)
        requires
            sum * share + scaled_up % sum == scaled_up,
            0 <= scaled_up % sum < sum,
            scaled_up >= 0,
    ;
    assert(share <= KERNEL_ONE) by (nonlinear_arith)
        requires
            sum * share + scaled_up % sum == scaled_up,
            0 <= scaled_up % sum,
            scaled_up <= sum * KERNEL_ONE,
            0 < sum,
    ;
}

/// The first `n` shares add up to no more than the share of the first `n`
/// raw weights together.
pub proof fn lemma_scaled_prefix_bound(raw: Seq<u32>, n: nat)
    requires
        n <= raw.len(),
        0 < total(raw),
    ensures
        0 <= prefix_total(scaled_weights(raw), n),
        prefix_total(scaled_weights(raw), n) * total(raw) <= prefix_total(raw, n) * KERNEL_ONE,
        prefix_total(scaled_weights(raw), n) <= KERNEL_ONE,
    decreases n,
{
    let scaled = scaled_weights(raw);
    let sum = total(raw);
    if n == 0 {
        assert(prefix_total(scaled, 0) * sum == 0) by (nonlinear_arith)
            requires
                prefix_total(scaled, 0) == 0,
        ;
    } else {
        lemma_scaled_prefix_bound(raw, (n - 1) as nat);
        lemma_scaled_weight_bounds(raw, n - 1);
        let before = prefix_total(scaled, (n - 1) as nat);
        let raw_before = prefix_total(raw, (n - 1) as nat);
        let share = scaled_weight(raw, n - 1);
        assert(scaled[n - 1] == share);
        assert((before + share) * sum <= (raw_before + raw[n - 1]) * KERNEL_ONE)
            by (nonlinear_arith)
            requires
                before * sum <= raw_before * KERNEL_ONE,
                share * sum <= raw[n - 1] * KERNEL_ONE,
        ;
    }
    lemma_prefix_total_monotone(raw, n, raw.len());
    let part = prefix_total(scaled, n);
    let raw_part = prefix_total(raw, n);
    assert(part <= KERNEL_ONE) by (nonlinear_arith)
        requires
            part * sum <= raw_part * KERNEL_ONE,
            0 <= raw_part <= sum,
            0 < sum,
    ;
}

/// The kernel of raw weights with a centre and a positive sum adds up to
/// exactly one, gives the centre at least its share, and is symmetric where
/// the raw weights are.
pub proof fn lemma_normalized_weights(raw: Seq<u32>)
    requires
        raw.len() % 2 == 1,
        0 < total(raw),
    ensures
        is_normalized(normalized_weights(raw)),
        normalized_weights(raw).len() == raw.len(),
        scaled_weights(raw)[radius_of(raw)] <= normalized_weights(raw)[radius_of(raw)]
            <= KERNEL_ONE,
        is_symmetric(raw) ==> is_symmetric(normalized_weights(raw)),
{
    let scaled = scaled_weights(raw);
    let centre = radius_of(raw);
    let kernel = normalized_weights(raw);
    lemma_scaled_prefix_bound(raw, raw.len());
    lemma_weight_within_prefix(scaled, centre, scaled.len());
    let middle = KERNEL_ONE - (total(scaled) - scaled[centre]);
    assert(middle as u32 == middle);
    lemma_prefix_total_update(scaled, centre, middle as u32, scaled.len());
    if is_symmetric(raw) {
        let last = kernel.len() - 1;
        assert forall|i: int| 0 <= i < kernel.len() implies #[trigger] kernel[i] == kernel[last
            - i] by {
            let mirrored = last - i;
            assert(raw[i] == raw[mirrored]);
            if i != centre {
                assert(kernel[i] == scaled[i]);
                assert(kernel[mirrored] == scaled[mirrored]);
            }
        }
    }
}

/// A normalized kernel: an odd number of fixed-point weights that add up to
/// exactly one. Its view is the sequence of its weights.
#[derive(Debug)]
pub struct Kernel {
    weights: Vec<u32>,
}

impl View for Kernel {
    type V = Seq<u32>;

    closed spec fn view(&self) -> Seq<u32> {
        self.weights@
    }
}

impl Clone for Kernel {
    fn clone(&self) -> (copy: Kernel)
        ensures
            copy@ == self@,
    {
        proof {
            use_type_invariant(self);
        }
        Kernel { weights: self.weights.clone() }
    }
}

impl Kernel {
    #[verifier::type_invariant]
    closed spec fn well_formed(&self) -> bool {
        is_normalized(self.weights@)
    }

    /// Builds the kernel of the given raw weights: each weight divided by the
    /// sum of all, so that the kernel adds up to one.
    ///
    /// The raw weights need a centre, so their count is odd, and a positive
    /// sum.
    pub fn normalized(raw: &[u32]) -> (result: Result<Kernel, FilterError>)
        ensures
            result is Ok <==> raw@.len() % 2 == 1 && 0 < total(raw@),
            result matches Ok(kernel) ==> {
                &&& kernel@ == normalized_weights(raw@)
                &&& is_normalized(kernel@)
                &&& is_symmetric(raw@) ==> is_symmetric(kernel@)
            },
            result matches Err(error) ==> error == (if raw@.len() % 2 == 0 {
                FilterError::EvenKernelLength
            } else {
                FilterError::ZeroKernelWeight
            }),
    {
        let count: usize = raw.len();
        if count % 2 == 0 {
            return Err(FilterError::EvenKernelLength);
        }
        let mut sum: u128 = 0;
        let mut i: usize = 0;
        while i < count
            invariant
                i <= count,
                count == raw@.len(),
                sum == prefix_total(raw@, i as nat),
                sum <= i * 0xffff_ffff,
            decreases count - i,
        {
            sum = sum + raw[i] as u128;
            i = i + 1;
        }
        if sum == 0 {
            return Err(FilterError::ZeroKernelWeight);
        }
        let ghost scaled = scaled_weights(raw@);
        let mut weights: Vec<u32> = Vec::with_capacity(count);
        let mut assigned: u32 = 0;
        let mut i: usize = 0;
        while i < count
            invariant
                i <= count,
                count == raw@.len(),
                sum == total(raw@),
                0 < sum,
                scaled == scaled_weights(raw@),
                weights@.len() == i,
                forall|j: int| 0 <= j < i ==> weights@[j] == scaled[j],
                assigned == prefix_total(scaled, i as nat),
            decreases count - i,
        {
            proof {
                lemma_scaled_weight_bounds(raw@, i as int);
                lemma_scaled_prefix_bound(raw@, (i + 1) as nat);
            }
            let share: u32 = ((raw[i] as u128 * KERNEL_ONE as u128) / sum) as u32;
            weights.push(share);
            assigned = assigned + share;
            i = i + 1;
        }
        let centre: usize = count / 2;
        proof {
            assert(weights@ =~= scaled);
            lemma_normalized_weights(raw@);
            lemma_scaled_prefix_bound(raw@, count as nat);
            lemma_weight_within_prefix(scaled, centre as int, count as nat);
        }
        let others: u32 = assigned - weights[centre];
        weights.set(centre, KERNEL_ONE - others);
        Ok(Kernel { weights })
    }

    /// The weights, from one end to the other.
    pub fn weights(&self) -> (weights: &Vec<u32>)
        ensures
            weights@ == self@,
            is_normalized(self@),
    {
        proof {
            use_type_invariant(self);
        }
        &self.weights
    }

    /// Distance from the centre to the ends.
    pub fn radius(&self) -> (radius: usize)
        ensures
            radius == radius_of(self@),
    {
        self.weights.len() / 2
    }
}

} // verus!
