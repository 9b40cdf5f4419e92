//! The weight that an entry's position in the history gives it.
//!
//! The weight follows `1.2 - 0.4 / (1 + e^(-index / 2))` in fixed point: it is
//! `SCALE` at the front of the history and falls towards `0.8 * SCALE`.

use vstd::prelude::*;
use vstd::arithmetic::div_mod::*;
use crate::fixed::SCALE;

verus! {

/// `e^(-1/2)` in units of `1 / SCALE`.
pub const DECAY: u64 = 606_530_659_712_633_424;

/// The weight that no entry falls below: `0.8` in units of `1 / SCALE`.
pub const FLOOR: u64 = 800_000_000_000_000_000;

/// `1.2` in units of `1 / SCALE`.
pub const CEILING: u64 = 1_200_000_000_000_000_000;

/// `0.4` in units of `1 / SCALE`.
pub const SPAN: u64 = 400_000_000_000_000_000;

/// The index at which the unit runs out: the weights fall strictly up to
/// this index, where they reach `FLOOR`, and stay there.
pub const HORIZON: u64 = 82;

/// A decay factor after one more step back in the history: multiplied by
/// `DECAY` and rounded down.
pub open spec fn decayed(factor: nat) -> nat {
    ((factor * DECAY) / (SCALE as int)) as nat
}

/// `e^(-index / 2)` in units of `1 / SCALE`, rounded down at each step.
pub open spec fn decay(index: nat) -> nat
    decreases index,
{
    if index == 0 {
        SCALE as nat
    } else {
        decayed(decay((index - 1) as nat))
    }
}

/// The weight that goes with a decay factor.
pub open spec fn weight_for(factor: nat) -> int {
    CEILING - (SPAN * SCALE) / (SCALE + factor)
}

/// The weight of the entry at `index`, in units of `1 / SCALE`.
pub open spec fn weight_at(index: nat) -> int {
    weight_for(decay(index))
}

/// One step of decay never grows a factor.
pub proof fn lemma_decay_step(factor: nat)
    requires
        factor <= SCALE,
    ensures
        decayed(factor) <= factor,
{
    assert(factor * DECAY <= factor * SCALE) by (nonlinear_arith)
        requires
            DECAY <= SCALE,
            factor >= 0,
    ;
    assert(0 <= factor * DECAY) by (nonlinear_arith)
        requires
            factor >= 0,
    ;
    lemma_div_is_ordered(factor * DECAY, factor * SCALE, SCALE as int);
    lemma_div_multiples_vanish(factor as int, SCALE as int);
    assert(factor * SCALE == SCALE * factor) by (nonlinear_arith);
    lemma_div_pos_is_pos(factor * DECAY, SCALE as int);
}

/// The decay factor never exceeds `SCALE`.
pub proof fn lemma_decay_bound(index: nat)
    ensures
        decay(index) <= SCALE,
    decreases index,
{
    if index > 0 {
        lemma_decay_bound((index - 1) as nat);
        lemma_decay_step(decay((index - 1) as nat));
    }
}

/// The decay factor never grows with the index.
pub proof fn lemma_decay_monotone(earlier: nat, later: nat)
    requires
        earlier <= later,
    ensures
        decay(later) <= decay(earlier),
    decreases later - earlier,
{
    if earlier < later {
        lemma_decay_monotone(earlier, (later - 1) as nat);
        lemma_decay_bound((later - 1) as nat);
        lemma_decay_step(decay((later - 1) as nat));
    }
}

/// A smaller decay factor gives a weight that is no larger, and every weight
/// lies between `FLOOR` and `SCALE`.
pub proof fn lemma_weight_for_ordered(smaller: nat, larger: nat)
    requires
        smaller <= larger <= SCALE,
    ensures
        FLOOR <= weight_for(smaller) <= weight_for(larger) <= SCALE,
{
    let whole = SPAN * SCALE;
    assert(SPAN * SCALE == 400_000_000_000_000_000_000_000_000_000_000_000) by (nonlinear_arith);
    lemma_div_is_ordered_by_denominator(whole, SCALE + smaller, SCALE + larger);
    lemma_div_is_ordered_by_denominator(whole, SCALE as int, SCALE + smaller);
    lemma_div_is_ordered_by_denominator(whole, SCALE + larger, SCALE + SCALE);
    assert(whole / (SCALE as int) == SPAN) by (nonlinear_arith)
        requires
            whole == SPAN * SCALE,
    ;
    assert(whole / (SCALE + SCALE) == 200_000_000_000_000_000) by (nonlinear_arith)
        requires
            whole == 400_000_000_000_000_000_000_000_000_000_000_000,
    ;
}

/// Every weight lies between `FLOOR` and `SCALE`, and the front of the
/// history has the weight `SCALE`.
pub proof fn lemma_weight_bounds(index: nat)
    ensures
        FLOOR <= weight_at(index) <= SCALE,
        weight_at(0) == SCALE,
{
    lemma_decay_bound(index);
    lemma_weight_for_ordered(decay(index), decay(index));
    assert(decay(0) == SCALE);
    assert((SPAN * SCALE) / (SCALE + SCALE) == 200_000_000_000_000_000) by (nonlinear_arith);
}

/// An entry further back in the history never has the larger weight.
pub proof fn lemma_weight_monotone(earlier: nat, later: nat)
    requires
        earlier <= later,
    ensures
        weight_at(later) <= weight_at(earlier),
{
    lemma_decay_monotone(earlier, later);
    lemma_decay_bound(earlier);
    lemma_weight_for_ordered(decay(later), decay(earlier));
}

/// A decay factor that is lower by ten units or more gives a strictly lower
/// weight.
pub proof fn lemma_weight_for_falls(smaller: nat, larger: nat)
    requires
        smaller + 10 <= larger <= SCALE,
    ensures
        weight_for(smaller) < weight_for(larger),
{
    let whole = SPAN * SCALE;
    let wide = SCALE + larger;
    let narrow = SCALE + smaller;
    let share = whole / wide;
    assert(SPAN * SCALE == 400_000_000_000_000_000_000_000_000_000_000_000) by (nonlinear_arith);
    lemma_fundamental_div_mod(whole, wide);
    lemma_mod_bound(whole, wide);
    lemma_div_is_ordered_by_denominator(whole, wide, SCALE + SCALE);
    assert(whole / (SCALE + SCALE) == 200_000_000_000_000_000) by (nonlinear_arith)
        requires
            whole == 400_000_000_000_000_000_000_000_000_000_000_000,
    ;
    assert((share + 1) * narrow <= whole) by (nonlinear_arith)
        requires
            wide * share <= whole,
            share >= 200_000_000_000_000_000,
            narrow + 10 <= wide,
            narrow <= 2_000_000_000_000_000_000,
    ;
    lemma_div_is_ordered((share + 1) * narrow, whole, narrow);
    lemma_div_multiples_vanish(share + 1, narrow);
    assert((share + 1) * narrow == narrow * (share + 1)) by (nonlinear_arith);
}

/// One step of decay lowers a factor of 26 units or more by ten units or
/// more.
pub proof fn lemma_decay_gap(factor: nat)
    requires
        26 <= factor <= SCALE,
    ensures
        decayed(factor) + 10 <= factor,
{
    let product = factor * DECAY;
    let next = product / (SCALE as int);
    assert(0 <= product) by (nonlinear_arith)
        requires
            product == factor * DECAY,
            factor >= 0,
    ;
    lemma_fundamental_div_mod(product, SCALE as int);
    lemma_mod_bound(product, SCALE as int);
    lemma_div_pos_is_pos(product, SCALE as int);
    assert(next + 10 <= factor) by (nonlinear_arith)
        requires
            SCALE * next <= product,
            product == factor * DECAY,
            factor >= 26,
            SCALE == 1_000_000_000_000_000_000,
            DECAY == 606_530_659_712_633_424,
    ;
}

/// The decay factors from the last that one step lowers by ten units or
/// more to the first that is zero.
proof fn lemma_decay_values()
    ensures
        decay(76) == 30,
        decay(77) == 18,
        decay(78) == 10,
        decay(79) == 6,
        decay(80) == 3,
        decay(81) == 1,
        decay(82) == 0,
{
    reveal_with_fuel(decay, 2);
    assert(decay(1) == 606_530_659_712_633_424);
    assert(decay(2) == 367_879_441_171_442_322);
    assert(decay(3) == 223_130_160_148_429_829);
    assert(decay(4) == 135_335_283_236_612_692);
    assert(decay(5) == 82_084_998_623_898_795);
    assert(decay(6) == 49_787_068_367_863_942);
    assert(decay(7) == 30_197_383_422_318_500);
    assert(decay(8) == 18_315_638_888_734_179);
    assert(decay(9) == 11_108_996_538_242_305);
    assert(decay(10) == 6_737_946_999_085_466);
    assert(decay(11) == 4_086_771_438_464_066);
    assert(decay(12) == 2_478_752_176_666_357);
    assert(decay(13) == 1_503_439_192_977_571);
    assert(decay(14) == 911_881_965_554_515);
    assert(decay(15) == 553_084_370_147_832);
    assert(decay(16) == 335_462_627_902_510);
    assert(decay(17) == 203_468_369_010_643);
    assert(decay(18) == 123_409_804_086_678);
    assert(decay(19) == 74_851_829_887_699);
    assert(decay(20) == 45_399_929_762_483);
    assert(decay(21) == 27_536_449_349_746);
    assert(decay(22) == 16_701_700_790_244);
    assert(decay(23) == 10_130_093_598_629);
    assert(decay(24) == 6_144_212_353_327);
    assert(decay(25) == 3_726_653_172_077);
    assert(decay(26) == 2_260_329_406_980);
    assert(decay(27) == 1_370_959_086_383);
    assert(decay(28) == 831_528_719_102);
    assert(decay(29) == 504_347_662_566);
    assert(decay(30) == 305_902_320_500);
    assert(decay(31) == 185_539_136_260);
    assert(decay(32) == 112_535_174_718);
    assert(decay(33) == 68_256_033_762);
    assert(decay(34) == 41_399_377_187);
    assert(decay(35) == 25_109_991_556);
    assert(decay(36) == 15_229_979_743);
    assert(decay(37) == 9_237_449_660);
    assert(decay(38) == 5_602_796_436);
    assert(decay(39) == 3_398_267_818);
    assert(decay(40) == 2_061_153_621);
    assert(decay(41) == 1_250_152_865);
    assert(decay(42) == 758_256_041);
    assert(decay(43) == 459_905_536);
    assert(decay(44) == 278_946_808);
    assert(decay(45) == 169_189_791);
    assert(decay(46) == 102_618_795);
    assert(decay(47) == 62_241_445);
    assert(decay(48) == 37_751_344);
    assert(decay(49) == 22_897_347);
    assert(decay(50) == 13_887_942);
    assert(decay(51) == 8_423_462);
    assert(decay(52) == 5_109_087);
    assert(decay(53) == 3_098_817);
    assert(decay(54) == 1_879_527);
    assert(decay(55) == 1_139_990);
    assert(decay(56) == 691_438);
    assert(decay(57) == 419_378);
    assert(decay(58) == 254_365);
    assert(decay(59) == 154_280);
    assert(decay(60) == 93_575);
    assert(decay(61) == 56_756);
    assert(decay(62) == 34_424);
    assert(decay(63) == 20_879);
    assert(decay(64) == 12_663);
    assert(decay(65) == 7_680);
    assert(decay(66) == 4_658);
    assert(decay(67) == 2_825);
    assert(decay(68) == 1_713);
    assert(decay(69) == 1_038);
    assert(decay(70) == 629);
    assert(decay(71) == 381);
    assert(decay(72) == 231);
    assert(decay(73) == 140);
    assert(decay(74) == 84);
    assert(decay(75) == 50);
    assert(decay(76) == 30);
    assert(decay(77) == 18);
    assert(decay(78) == 10);
    assert(decay(79) == 6);
    assert(decay(80) == 3);
    assert(decay(81) == 1);
    assert(decay(82) == 0);
}

/// The weights of the last entries before `HORIZON`, and at it.
proof fn lemma_weight_values()
    ensures
        weight_at(77) == 800_000_000_000_000_008,
        weight_at(78) == 800_000_000_000_000_004,
        weight_at(79) == 800_000_000_000_000_003,
        weight_at(80) == 800_000_000_000_000_002,
        weight_at(81) == 800_000_000_000_000_001,
        weight_at(82) == 800_000_000_000_000_000,
{
    lemma_decay_values();
    assert((SPAN * SCALE) / (SCALE + 18) == 399_999_999_999_999_992) by (nonlinear_arith);
    assert((SPAN * SCALE) / (SCALE + 10) == 399_999_999_999_999_996) by (nonlinear_arith);
    assert((SPAN * SCALE) / (SCALE + 6) == 399_999_999_999_999_997) by (nonlinear_arith);
    assert((SPAN * SCALE) / (SCALE + 3) == 399_999_999_999_999_998) by (nonlinear_arith);
    assert((SPAN * SCALE) / (SCALE + 1) == 399_999_999_999_999_999) by (nonlinear_arith);
    assert((SPAN * SCALE) / (SCALE + 0) == 400_000_000_000_000_000) by (nonlinear_arith);
}

/// Before `HORIZON`, one step back in the history lowers the weight.
pub proof fn lemma_weight_step(index: nat)
    requires
        index < HORIZON,
    ensures
        weight_at(index + 1) < weight_at(index),
{
    lemma_decay_values();
    if index <= 76 {
        lemma_decay_monotone(index, 76);
        lemma_decay_bound(index);
        lemma_decay_gap(decay(index));
        assert(decay(index + 1) == decayed(decay(index)));
        lemma_weight_for_falls(decay(index + 1), decay(index));
    } else {
        lemma_weight_values();
    }
}

/// An entry further back in the history has a strictly smaller weight, as
/// long as the earlier of the two stands before `HORIZON`.
pub proof fn lemma_weight_strictly_decreasing(earlier: nat, later: nat)
    requires
        earlier < later,
        earlier < HORIZON,
    ensures
        weight_at(later) < weight_at(earlier),
    decreases later - earlier,
{
    if later > HORIZON {
        lemma_weight_monotone(HORIZON as nat, later);
        if earlier + 1 < HORIZON {
            lemma_weight_strictly_decreasing(earlier, HORIZON as nat);
        } else {
            lemma_weight_step(earlier);
        }
    } else {
        if earlier + 1 < later {
            lemma_weight_strictly_decreasing(earlier, (later - 1) as nat);
        }
        lemma_weight_step((later - 1) as nat);
    }
}

/// From `HORIZON` on the decay factor is zero and the weight is `FLOOR`.
pub proof fn lemma_weight_settles(index: nat)
    requires
        index >= HORIZON,
    ensures
        decay(index) == 0,
        weight_at(index) == FLOOR,
    decreases index,
{
    lemma_decay_values();
    if index > HORIZON {
        lemma_weight_settles((index - 1) as nat);
    }
    assert((0 * DECAY) / (SCALE as int) == 0) by (nonlinear_arith);
    assert((SPAN * SCALE) / (SCALE + 0) == SPAN) by (nonlinear_arith);
}

/// The weight of the entry at `index`: `SCALE` at the front of the history,
/// lower with each step back up to `HORIZON`, and `FLOOR` from there on.
pub fn weight(index: usize) -> (w: u64)
    ensures
        w == weight_at(index as nat),
        FLOOR <= w <= SCALE,
{
    let mut factor: u64 = SCALE;
    let mut step: usize = 0;
    while step < index && factor > 0
        invariant
            step <= index,
            factor == decay(step as nat),
            factor <= SCALE,
        decreases index - step,
    {
        proof {
            lemma_decay_step(factor as nat);
            assert(factor * DECAY <= SCALE * DECAY) by (nonlinear_arith)
                requires
                    factor <= SCALE,
            ;
        }
        let product: u128 = (factor as u128) * (DECAY as u128);
        factor = (product / (SCALE as u128)) as u64;
        step += 1;
    }
    proof {
        if step < index {
            lemma_decay_monotone(step as nat, index as nat);
        }
        lemma_weight_for_ordered(factor as nat, factor as nat);
        assert(SPAN * SCALE == 400_000_000_000_000_000_000_000_000_000_000_000) by (nonlinear_arith);
    }
    let whole: u128 = (SPAN as u128) * (SCALE as u128);
    let share: u128 = whole / ((SCALE as u128) + (factor as u128));
    ((CEILING as u128) - share) as u64
}

} // verus!
