//! The number of coarse steps of one sampling pass.
//!
//! Both frames advance by one `frequency`-th of a revolution per coarse step,
//! so the pattern repeats after the least common multiple of the two
//! frequencies. One further step draws the closing segment.

use vstd::prelude::*;

verus! {

/// A frequency of zero was supplied; no angular velocity can be derived from it.
#[derive(Clone, Copy, Debug, PartialEq, Eq, Structural)]
pub struct InvalidFrequency;

/// `m` is a positive multiple of both `a` and `b`.
pub open spec fn is_common_multiple(m: nat, a: nat, b: nat) -> bool {
    &&& a > 0
    &&& b > 0
    &&& m > 0
    &&& m % a == 0
    &&& m % b == 0
}

/// `m` is the least positive multiple that `a` and `b` share.
pub open spec fn is_least_common_multiple(m: nat, a: nat, b: nat) -> bool {
    &&& is_common_multiple(m, a, b)
    &&& forall|k: nat| #[trigger] is_common_multiple(k, a, b) ==> m <= k
}

/// The least common multiple of two positive numbers.
pub open spec fn least_common_multiple(a: nat, b: nat) -> nat {
    choose|m: nat| is_least_common_multiple(m, a, b)
}

/// Where a frame stands within its revolution after `steps` coarse steps,
/// counted in angular-velocity steps past the start.
pub open spec fn phase(steps: nat, frequency: nat) -> nat {
    steps % frequency
}

/// The number of coarse steps of a pass, as a function of the frequencies.
pub open spec fn spec_nb_points(large_frequency: nat, small_frequency: nat) -> nat {
    least_common_multiple(large_frequency, small_frequency) + 1
}

proof fn lemma_product_is_common_multiple(a: nat, b: nat)
    requires
        a > 0,
        b > 0,
    ensures
        is_common_multiple(a * b, a, b),
{
    assert(a * b > 0) by (nonlinear_arith)
        requires
            a > 0,
            b > 0,
    ;
    assert((a * b) % a == 0) by (nonlinear_arith)
        requires
            a > 0,
    ;
    assert((a * b) % b == 0) by (nonlinear_arith)
        requires
            b > 0,
    ;
}

proof fn lemma_least_exists_below(a: nat, b: nat, bound: nat)
    requires
        is_common_multiple(bound, a, b),
    ensures
        exists|m: nat| #[trigger] is_least_common_multiple(m, a, b) && m <= bound,
    decreases bound,
{
    if exists|k: nat| #[trigger] is_common_multiple(k, a, b) && k < bound {
        let k = choose|k: nat| #[trigger] is_common_multiple(k, a, b) && k < bound;
        lemma_least_exists_below(a, b, k);
    } else {
        assert(is_least_common_multiple(bound, a, b));
    }
}

/// Two positive numbers have a least common multiple, it is
/// `least_common_multiple`, and it does not exceed their product.
pub proof fn lemma_least_common_multiple(a: nat, b: nat)
    requires
        a > 0,
        b > 0,
    ensures
        is_least_common_multiple(least_common_multiple(a, b), a, b),
        least_common_multiple(a, b) <= a * b,
{
    lemma_product_is_common_multiple(a, b);
    lemma_least_exists_below(a, b, a * b);
}

/// The least common multiple is unique.
pub proof fn lemma_least_common_multiple_unique(m: nat, a: nat, b: nat)
    requires
        is_least_common_multiple(m, a, b),
    ensures
        m == least_common_multiple(a, b),
{
    let l = least_common_multiple(a, b);
    assert(is_least_common_multiple(l, a, b));
    assert(is_common_multiple(m, a, b));
    assert(is_common_multiple(l, a, b));
}

/// Calls `num::integer::lcm` on the two frequencies widened to `u64`.
///
/// For unsigned operands `num` computes `a * (b / gcd(a, b))`; with both
/// operands below 2^32 the product fits in a `u64`. The contract claims that
/// the result is the least positive common multiple of two positive operands.
#[verifier::external_body]
fn lcm(a: u32, b: u32) -> (r: u64)
    requires
        a > 0,
        b > 0,
    ensures
        r == least_common_multiple(a as nat, b as nat),
{
    num::integer::lcm(u64::from(a), u64::from(b))
}

/// The number of coarse steps of a pass: the least common multiple of the
/// two frequencies, plus one step for the closing segment.
///
/// A frequency of zero is rejected.
pub fn nb_points(large_frequency: u32, small_frequency: u32) -> (r: Result<u64, InvalidFrequency>)
    ensures
        r is Err <==> large_frequency == 0 || small_frequency == 0,
        r matches Ok(n) ==> n == spec_nb_points(large_frequency as nat, small_frequency as nat),
{
    if large_frequency == 0 || small_frequency == 0 {
        return Err(InvalidFrequency);
    }
    let period = lcm(large_frequency, small_frequency);
    proof {
        lemma_least_common_multiple(large_frequency as nat, small_frequency as nat);
        assert(large_frequency as nat * small_frequency as nat <= 0xffff_ffff * 0xffff_ffff)
            by (nonlinear_arith)
            requires
                large_frequency as nat <= 0xffff_ffff,
                small_frequency as nat <= 0xffff_ffff,
        ;
    }
    Ok(period + 1)
}

/// The pattern closes, and no sooner than it must.
///
/// After `nb_points - 1` coarse steps both frames are back where they
/// started, and after no smaller positive number of steps are they both.
/// The step that completes `nb_points` therefore leaves each frame exactly
/// one angular-velocity step past its start.
pub proof fn lemma_pattern_closes(large_frequency: nat, small_frequency: nat)
    requires
        large_frequency > 0,
        small_frequency > 0,
    ensures
        spec_nb_points(large_frequency, small_frequency) >= 2,
        phase((spec_nb_points(large_frequency, small_frequency) - 1) as nat, large_frequency)
            == phase(0, large_frequency),
        phase((spec_nb_points(large_frequency, small_frequency) - 1) as nat, small_frequency)
            == phase(0, small_frequency),
        phase(spec_nb_points(large_frequency, small_frequency), large_frequency)
            == phase(1, large_frequency),
        phase(spec_nb_points(large_frequency, small_frequency), small_frequency)
            == phase(1, small_frequency),
        forall|steps: nat|
            0 < steps < spec_nb_points(large_frequency, small_frequency) - 1 ==> !(
                #[trigger] phase(steps, large_frequency) == phase(0, large_frequency)
                && phase(steps, small_frequency) == phase(0, small_frequency)),
{
    let period = least_common_multiple(large_frequency, small_frequency);
    lemma_least_common_multiple(large_frequency, small_frequency);
    assert(is_common_multiple(period, large_frequency, small_frequency));
    assert((period + 1) % large_frequency == 1nat % large_frequency) by (nonlinear_arith)
        requires
            large_frequency > 0,
            period % large_frequency == 0,
    ;
    assert((period + 1) % small_frequency == 1nat % small_frequency) by (nonlinear_arith)
        requires
            small_frequency > 0,
            period % small_frequency == 0,
    ;
    assert forall|steps: nat| 0 < steps < period implies !(#[trigger] phase(steps, large_frequency)
        == phase(0, large_frequency) && phase(steps, small_frequency) == phase(
        0,
        small_frequency,
    )) by {
        if phase(steps, large_frequency) == 0 && phase(steps, small_frequency) == 0 {
            assert(is_common_multiple(steps, large_frequency, small_frequency));
        }
    }
}

} // verus!
