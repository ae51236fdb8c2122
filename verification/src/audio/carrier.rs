//! The split of a sample period into a fast carrier and a hold count.
//!
//! One PWM period per sample would put the carrier at the sample rate, which
//! is audible as a loud tone. The carrier has to sit above hearing and each
//! sample must be held for several periods.

use vstd::prelude::*;

verus! {

/// The PWM base clock, undivided.
pub const PWM_CLOCK_HZ: u32 = 16_000_000;

/// Largest counter top that is accepted before trading resolution for carrier
/// frequency. 320 puts the carrier at 50 kHz or above -- inaudible -- while
/// still leaving over eight bits of duty resolution.
pub const MAX_TOP: u32 = 320;

/// Most extra periods that a sample is held for to bring the top down to
/// [`MAX_TOP`].
pub const MAX_REFRESH: u32 = 15;

/// Largest top that the counter takes.
pub const TOP_LIMIT: u32 = 0xFFFF;

/// The counter top that gives one sample period when each sample is held for
/// `refresh` extra periods. A sample rate of zero counts as one.
pub open spec fn top_for(sample_rate: int, refresh: int) -> int {
    PWM_CLOCK_HZ as int / ((if sample_rate < 1 {
        1
    } else {
        sample_rate
    }) * (refresh + 1))
}

/// Whether the search for an inaudible carrier ends at `refresh`.
pub open spec fn settles(sample_rate: int, refresh: int) -> bool {
    top_for(sample_rate, refresh) <= MAX_TOP || refresh >= MAX_REFRESH
}

/// The hold count for a sample rate: the least one at which the search ends.
/// Where that leaves a top that the counter does not take, the held periods are
/// doubled until it does.
pub open spec fn is_hold_count(sample_rate: int, refresh: int) -> bool {
    &&& top_for(sample_rate, refresh) <= TOP_LIMIT
    &&& if refresh <= MAX_REFRESH {
        &&& 0 <= refresh
        &&& settles(sample_rate, refresh)
        &&& forall|r: int| 0 <= r < refresh ==> !settles(sample_rate, r)
    } else {
        &&& refresh == 31 || refresh == 63 || refresh == 127 || refresh == 255
        &&& top_for(sample_rate, (refresh - 1) / 2) > TOP_LIMIT
    }
}

/// The counter top at a hold count. A top of zero would stop the counter, so it
/// is at least two.
pub open spec fn held_top(sample_rate: int, refresh: int) -> int {
    if top_for(sample_rate, refresh) < 2 {
        2
    } else {
        top_for(sample_rate, refresh)
    }
}

/// Whether `top * (refresh + 1)` PWM ticks make up one sample period: they never
/// exceed it, and with one tick more in each held period they would.
pub open spec fn meets_period(sample_rate: int, top: int, refresh: int) -> bool {
    top * (refresh + 1) * sample_rate <= PWM_CLOCK_HZ < (top + 1) * (refresh + 1) * sample_rate
}

/// Chooses a counter top and hold count for a sample rate.
///
/// Returns `(top, refresh)` such that `top * (refresh + 1)` PWM ticks make up
/// one sample period. `refresh` is the number of *extra* periods each sample
/// is held for, so the sample rate is `PWM_CLOCK_HZ / (top * (refresh + 1))`.
pub fn carrier_for(sample_rate: u32) -> (carrier: (u16, u32))
    ensures
        is_hold_count(sample_rate as int, carrier.1 as int),
        carrier.0 == held_top(sample_rate as int, carrier.1 as int),
        1 <= sample_rate <= 8_000_000 ==> meets_period(
            sample_rate as int,
            carrier.0 as int,
            carrier.1 as int,
        ),
{
    let rate: u32 = if sample_rate < 1 {
        1
    } else {
        sample_rate
    };
    let mut refresh: u32 = 0;
    proof {
        lemma_held_periods(rate as int, sample_rate as int, 0);
    }
    let mut top: u32 = PWM_CLOCK_HZ / (rate * (refresh + 1));
    while top > MAX_TOP && refresh < MAX_REFRESH
        invariant
            rate == (if sample_rate < 1 {
                1
            } else {
                sample_rate as int
            }),
            refresh <= MAX_REFRESH,
            top == top_for(sample_rate as int, refresh as int),
            forall|r: int| 0 <= r < refresh ==> !settles(sample_rate as int, r),
        decreases MAX_REFRESH - refresh,
    {
        assert(!settles(sample_rate as int, refresh as int));
        refresh = refresh + 1;
        proof {
            lemma_held_periods(rate as int, sample_rate as int, refresh as int);
        }
        top = PWM_CLOCK_HZ / (rate * (refresh + 1));
    }
    while top > TOP_LIMIT
        invariant
            rate == (if sample_rate < 1 {
                1
            } else {
                sample_rate as int
            }),
            top == top_for(sample_rate as int, refresh as int),
            refresh <= MAX_REFRESH ==> {
                &&& settles(sample_rate as int, refresh as int)
                &&& forall|r: int| 0 <= r < refresh ==> !settles(sample_rate as int, r)
            },
            top > TOP_LIMIT ==> refresh >= MAX_REFRESH,
            refresh > MAX_REFRESH ==> {
                &&& refresh == 31 || refresh == 63 || refresh == 127 || refresh == 255
                &&& top_for(sample_rate as int, (refresh - 1) / 2) > TOP_LIMIT
            },
        decreases 255 - refresh,
    {
        proof {
            lemma_doubled_periods(rate as int, refresh as int);
        }
        refresh = refresh * 2 + 1;
        top = PWM_CLOCK_HZ / (rate * (refresh + 1));
    }
    proof {
        if 1 <= sample_rate <= 8_000_000 {
            law_the_sample_period_is_met(sample_rate as int, refresh as int);
        }
    }
    if top < 2 {
        (2, refresh)
    } else {
        (top as u16, refresh)
    }
}

/// While the search goes on, the held periods of one sample fit the counter.
proof fn lemma_held_periods(rate: int, sample_rate: int, refresh: int)
    requires
        1 <= rate <= u32::MAX,
        rate == (if sample_rate < 1 {
            1
        } else {
            sample_rate
        }),
        0 <= refresh <= MAX_REFRESH,
        forall|r: int| 0 <= r < refresh ==> !settles(sample_rate, r),
    ensures
        1 <= rate * (refresh + 1) <= u32::MAX,
        refresh > 0 ==> rate * (refresh + 1) <= 800_000,
{
    if refresh > 0 {
        assert(!settles(sample_rate, 0));
        assert(rate * (0 + 1) == rate) by (nonlinear_arith);
        assert(rate <= 50_000) by (nonlinear_arith)
            requires
                16_000_000int / rate > 320,
                rate >= 1,
        ;
        assert(1 <= rate * (refresh + 1) <= 50_000 * 16) by (nonlinear_arith)
            requires
                1 <= rate <= 50_000,
                0 <= refresh <= 15,
        ;
    } else {
        assert(rate * (refresh + 1) == rate) by (nonlinear_arith)
            requires
                refresh == 0,
        ;
    }
}

/// Only a short product leaves a top that the counter does not take, and 256
/// held periods never do.
proof fn lemma_doubled_periods(rate: int, refresh: int)
    requires
        rate >= 1,
        refresh >= 0,
        16_000_000int / (rate * (refresh + 1)) > TOP_LIMIT,
    ensures
        1 <= rate * (refresh + 1) <= 244,
        1 <= rate * (refresh * 2 + 1 + 1) <= 488,
        refresh < 244,
{
    let ticks = rate * (refresh + 1);
    assert(ticks >= refresh + 1) by (nonlinear_arith)
        requires
            ticks == rate * (refresh + 1),
            rate >= 1,
            refresh >= 0,
    ;
    assert(ticks <= 244) by (nonlinear_arith)
        requires
            16_000_000int / ticks > 0xFFFF,
            ticks >= 1,
    ;
    assert(rate * (refresh * 2 + 1 + 1) == ticks + ticks) by (nonlinear_arith)
        requires
            ticks == rate * (refresh + 1),
    ;
}

/// The sample period is met to within one hold: the PWM ticks that a sample
/// takes never exceed the exact period, and fall short of it by less than one
/// tick for each period that the sample is held for. Above 8 MHz the top is
/// held at two.
pub proof fn law_the_sample_period_is_met(sample_rate: int, refresh: int)
    requires
        1 <= sample_rate <= 8_000_000,
        is_hold_count(sample_rate, refresh),
    ensures
        held_top(sample_rate, refresh) == top_for(sample_rate, refresh),
        meets_period(sample_rate, held_top(sample_rate, refresh), refresh),
{
    let top = top_for(sample_rate, refresh);
    let ticks = sample_rate * (refresh + 1);
    assert(1 <= ticks <= 8_000_000) by {
        if refresh > MAX_REFRESH {
            lemma_doubled_periods(sample_rate, (refresh - 1) / 2);
            assert(((refresh - 1) / 2) * 2 + 1 == refresh);
        } else {
            lemma_held_periods(sample_rate, sample_rate, refresh);
            if refresh == 0 {
                assert(sample_rate * (0 + 1) == sample_rate) by (nonlinear_arith);
            }
        }
    }
    vstd::arithmetic::div_mod::lemma_fundamental_div_mod(16_000_000, ticks);
    vstd::arithmetic::div_mod::lemma_mod_bound(16_000_000, ticks);
    assert(top * (refresh + 1) * sample_rate == ticks * top) by (nonlinear_arith)
        requires
            ticks == sample_rate * (refresh + 1),
    ;
    assert((top + 1) * (refresh + 1) * sample_rate == ticks * top + ticks) by (nonlinear_arith)
        requires
            ticks == sample_rate * (refresh + 1),
    ;
    assert(16_000_000int / ticks >= 2) by (nonlinear_arith)
        requires
            1 <= ticks <= 8_000_000,
    ;
}

/// The carrier is inaudible: at every sample rate from 3125 Hz up it is 50 kHz
/// or more.
pub proof fn law_the_carrier_is_inaudible(sample_rate: int, refresh: int)
    requires
        3125 <= sample_rate <= 8_000_000,
        is_hold_count(sample_rate, refresh),
    ensures
        2 <= held_top(sample_rate, refresh) <= MAX_TOP,
        PWM_CLOCK_HZ as int / held_top(sample_rate, refresh) >= 50_000,
{
    law_the_sample_period_is_met(sample_rate, refresh);
    let top = top_for(sample_rate, refresh);
    if refresh > MAX_REFRESH {
        lemma_doubled_periods(sample_rate, (refresh - 1) / 2);
        let half = (refresh - 1) / 2;
        assert(sample_rate * (half + 1) >= 3125) by (nonlinear_arith)
            requires
                sample_rate >= 3125,
                half >= 0,
        ;
    } else if refresh >= MAX_REFRESH {
        assert(16_000_000int / (sample_rate * 16) <= 320) by (nonlinear_arith)
            requires
                sample_rate >= 3125,
        ;
    }
    assert(16_000_000int / top >= 50_000) by (nonlinear_arith)
        requires
            2 <= top <= 320,
    ;
}

/// No sample is held longer than it takes: with one held period less the
/// carrier would be audible, and beyond sixteen periods, with half of them the
/// counter would not take its top.
pub proof fn law_no_sample_is_held_needlessly(sample_rate: int, refresh: int)
    requires
        sample_rate >= 1,
        is_hold_count(sample_rate, refresh),
    ensures
        0 < refresh <= 15 ==> 16_000_000int / (sample_rate * refresh) > 320,
        refresh > 15 ==> 2 * (16_000_000int / (sample_rate * (refresh + 1))) + 1 >= 0x1_0000,
        16_000_000int / (sample_rate * (refresh + 1)) <= 0xFFFF,
        refresh < 15 ==> 16_000_000int / (sample_rate * (refresh + 1)) <= 320,
        0 <= refresh <= 255,
{
    if 0 < refresh <= 15 {
        assert(!settles(sample_rate, refresh - 1));
    }
    if refresh > 15 {
        let half = (refresh - 1) / 2;
        let ticks = sample_rate * (half + 1);
        lemma_doubled_periods(sample_rate, half);
        assert(sample_rate * (refresh + 1) == 2 * ticks) by (nonlinear_arith)
            requires
                refresh + 1 == 2 * (half + 1),
                ticks == sample_rate * (half + 1),
        ;
        assert(2 * (16_000_000int / (2 * ticks)) + 1 >= 16_000_000int / ticks) by (nonlinear_arith)
            requires
                ticks >= 1,
        ;
    }
}

/// A sample rate has one carrier: there is no second hold count for it.
pub proof fn law_a_sample_rate_has_one_carrier(sample_rate: int, a: int, b: int)
    requires
        sample_rate >= 1,
        is_hold_count(sample_rate, a),
        is_hold_count(sample_rate, b),
    ensures
        a == b,
{
    if a < b {
        lemma_carriers_in_order(sample_rate, a, b);
    }
    if b < a {
        lemma_carriers_in_order(sample_rate, b, a);
    }
}

/// A hold count rules out all greater ones.
proof fn lemma_carriers_in_order(sample_rate: int, a: int, b: int)
    requires
        sample_rate >= 1,
        is_hold_count(sample_rate, a),
        a < b,
    ensures
        !is_hold_count(sample_rate, b),
{
    if b <= MAX_REFRESH {
        assert(settles(sample_rate, a));
    } else if is_hold_count(sample_rate, b) {
        let half = (b - 1) / 2;
        let few = sample_rate * (a + 1);
        let many = sample_rate * (half + 1);
        assert(half >= a);
        assert(1 <= few <= many) by (nonlinear_arith)
            requires
                few == sample_rate * (a + 1),
                many == sample_rate * (half + 1),
                sample_rate >= 1,
                0 <= a <= half,
        ;
        assert(16_000_000int / few >= 16_000_000int / many) by (nonlinear_arith)
            requires
                1 <= few <= many,
        ;
    }
}

/// At the ends of the range: a sample rate of zero counts as one, and above 8
/// MHz there is one period of two ticks per sample, as short as the counter
/// goes.
pub proof fn law_odd_sample_rates_have_a_carrier(sample_rate: int, refresh: int)
    requires
        is_hold_count(sample_rate, refresh),
    ensures
        sample_rate == 0 ==> is_hold_count(1, refresh) && held_top(0, refresh) == held_top(
            1,
            refresh,
        ),
        sample_rate > 8_000_000 ==> refresh == 0 && held_top(sample_rate, refresh) == 2,
        2 <= held_top(sample_rate, refresh) <= 0xFFFF,
{
    if sample_rate == 0 {
        assert forall|r: int| 0 <= r < refresh && refresh <= MAX_REFRESH implies !settles(1, r) by {
            assert(!settles(0, r));
        }
    }
    if sample_rate > 8_000_000 {
        assert(sample_rate * (0 + 1) == sample_rate) by (nonlinear_arith);
        assert(16_000_000int / sample_rate <= 1) by (nonlinear_arith)
            requires
                sample_rate > 8_000_000,
        ;
        assert(settles(sample_rate, 0));
        assert(is_hold_count(sample_rate, 0));
        law_a_sample_rate_has_one_carrier(sample_rate, 0, refresh);
    }
}

} // verus!
