//! The density setting and what follows from it: the number of rectangles to
//! draw for an image, and the darkness that the first half of a split is due.

use vstd::prelude::*;
use vstd::arithmetic::div_mod::{lemma_div_denominator, lemma_div_is_ordered, lemma_hoist_over_denominator};
use vstd::arithmetic::power2::{lemma2_to64, lemma2_to64_rest, lemma_pow2_strictly_increases, pow2};
use crate::arith::{
    ceil_div, lemma_ceil_div, lemma_pow2_fits, lemma_quotient_unique, mul_div, power_of_two,
};
use crate::darkness::FULL_DARKNESS;

verus! {

/// Most rectangles one run will draw, whatever the setting asks for.
pub const MAX_RECTS: u64 = 4_294_967_296;

/// A non-negative rational number `num / den`.
#[derive(Clone, Copy, Debug, PartialEq, Eq, Structural)]
pub struct Ratio {
    pub num: u128,
    pub den: u128,
}

/// Settings of one run.
#[derive(Clone, Copy, Debug, PartialEq, Eq, Structural)]
pub struct Settings {
    /// Rectangles drawn for one black pixel's worth of darkness.
    pub rects_per_pixel: Ratio,
}

impl Default for Settings {
    /// One rectangle for ten black pixels' worth of darkness.
    fn default() -> (s: Settings)
        ensures
            s == (Settings { rects_per_pixel: Ratio { num: 1, den: 10 } }),
            s.wf(),
    {
        Settings { rects_per_pixel: Ratio { num: 1, den: 10 } }
    }
}

/// The ratio that a double-precision number stands for, from the bits of the
/// number: a sign, eleven bits of exponent and fifty-two of fraction.
///
/// Infinities, values that are not numbers and negative numbers stand for no
/// ratio. Any other number stands for itself, with a power of two for a
/// denominator, but for two cases. A number of `2^128` or more stands for
/// `u128::MAX`. A number whose last mantissa bit is worth less than `2^-127`,
/// which makes it less than `2^-75`, is rounded down to a multiple of `2^-127`.
pub open spec fn ratio_of_bits(bits: u64) -> Option<Ratio> {
    let negative = bits >= 0x8000_0000_0000_0000;
    let magnitude = bits % 0x8000_0000_0000_0000;
    let exponent = magnitude / 0x10_0000_0000_0000;
    let fraction = magnitude % 0x10_0000_0000_0000;
    let mantissa = if exponent == 0 { fraction as int } else { fraction + 0x10_0000_0000_0000 };
    let scale = (if exponent == 0 { 1 } else { exponent as int }) - 1075;
    if exponent == 2047 || (negative && magnitude != 0) {
        None
    } else if mantissa == 0 {
        Some(Ratio { num: 0, den: 1 })
    } else if scale > 75 {
        Some(Ratio { num: u128::MAX, den: 1 })
    } else if scale >= 0 {
        Some(Ratio { num: (mantissa * pow2(scale as nat)) as u128, den: 1 })
    } else if scale >= -127 {
        Some(Ratio { num: mantissa as u128, den: pow2((-scale) as nat) as u128 })
    } else {
        Some(Ratio { num: (mantissa / (pow2((-scale - 127) as nat) as int)) as u128, den: pow2(127) as u128 })
    }
}

impl Settings {
    /// The density is a number: its denominator is not zero.
    pub open spec fn wf(self) -> bool {
        self.rects_per_pixel.den > 0
    }

    /// Settings with the density that a double-precision number stands for,
    /// given by its bits, or `None` when it stands for none.
    pub fn from_f64_bits(bits: u64) -> (s: Option<Settings>)
        ensures
            s == match ratio_of_bits(bits) {
                Some(ratio) => Some(Settings { rects_per_pixel: ratio }),
                None => None,
            },
            s matches Some(settings) ==> settings.wf(),
    {
        let negative: bool = bits >= 0x8000_0000_0000_0000;
        let magnitude: u64 = bits % 0x8000_0000_0000_0000;
        let exponent: u64 = magnitude / 0x10_0000_0000_0000;
        let fraction: u64 = magnitude % 0x10_0000_0000_0000;
        if exponent == 2047 || (negative && magnitude != 0) {
            return None;
        }
        let mantissa: u128 = if exponent == 0 {
            fraction as u128
        } else {
            fraction as u128 + 0x10_0000_0000_0000
        };
        if mantissa == 0 {
            return Some(Settings { rects_per_pixel: Ratio { num: 0, den: 1 } });
        }
        let biased: u32 = if exponent == 0 { 1 } else { exponent as u32 };
        let ratio: Ratio = if biased > 1150 {
            Ratio { num: u128::MAX, den: 1 }
        } else if biased >= 1075 {
            let factor: u128 = power_of_two(biased - 1075);
            proof {
                lemma_pow2_fits(75);
                lemma2_to64();
                lemma2_to64_rest();
                vstd::arithmetic::power2::lemma_pow2_adds(64, 11);
                assert(pow2(75) == 0x800_0000_0000_0000_0000) by (nonlinear_arith)
                    requires
                        pow2(75) == pow2(64) * pow2(11),
                        pow2(64) == 0x1_0000_0000_0000_0000,
                        pow2(11) == 0x800,
                ;
                if biased - 1075 < 75 {
                    lemma_pow2_strictly_increases((biased - 1075) as nat, 75);
                }
                assert(mantissa * factor <= 0x1F_FFFF_FFFF_FFFF * 0x800_0000_0000_0000_0000)
                    by (nonlinear_arith)
                    requires
                        0 <= mantissa <= 0x1F_FFFF_FFFF_FFFF,
                        0 <= factor <= 0x800_0000_0000_0000_0000,
                ;
            }
            Ratio { num: mantissa * factor, den: 1 }
        } else if biased >= 948 {
            proof {
                lemma_pow2_fits((1075 - biased) as nat);
            }
            Ratio { num: mantissa, den: power_of_two(1075 - biased) }
        } else {
            let shift: u32 = 948 - biased;
            proof {
                lemma_pow2_fits(127);
                lemma2_to64();
                lemma2_to64_rest();
                if shift >= 53 {
                    if shift > 53 {
                        lemma_pow2_strictly_increases(53, shift as nat);
                    }
                    vstd::arithmetic::div_mod::lemma_basic_div(mantissa as int, pow2(shift as nat) as int);
                } else {
                    lemma_pow2_fits(shift as nat);
                }
            }
            let num: u128 = if shift >= 53 { 0 } else { mantissa / power_of_two(shift) };
            Ratio { num, den: power_of_two(127) }
        };
        Some(Settings { rects_per_pixel: ratio })
    }

    /// Settings with the density `num / den`, or `None` when `den` is zero.
    pub fn new(num: u128, den: u128) -> (s: Option<Settings>)
        ensures
            s == if den > 0 {
                Some(Settings { rects_per_pixel: Ratio { num: num, den: den } })
            } else {
                None
            },
            s matches Some(settings) ==> settings.wf(),
    {
        if den > 0 {
            Some(Settings { rects_per_pixel: Ratio { num, den } })
        } else {
            None
        }
    }
}

/// Whether clipped darkness `darkness` reaches what `first_half` rectangles
/// are due: `first_half / rects_per_pixel` pixels' worth. A density of zero
/// makes every share unreachable.
pub open spec fn reaches(settings: Settings, first_half: int, darkness: int) -> bool {
    let density = settings.rects_per_pixel;
    density.num > 0 && darkness * density.num >= first_half * density.den * FULL_DARKNESS
}

/// The clipped darkness that `first_half` rectangles are due,
/// `first_half / rects_per_pixel` pixels' worth, rounded up to a whole unit.
/// `None` for a density of zero, which puts the target out of reach.
pub open spec fn target_darkness(settings: Settings, first_half: int) -> Option<int> {
    let density = settings.rects_per_pixel;
    if density.num == 0 {
        None
    } else {
        Some(ceil_div(first_half * density.den * FULL_DARKNESS, density.num as int))
    }
}

/// Rounding the target up to a whole unit does not change which amounts of
/// darkness reach it.
pub proof fn lemma_target_is_exact(settings: Settings, first_half: int, darkness: int)
    ensures
        reaches(settings, first_half, darkness) <==> (target_darkness(settings, first_half) matches Some(t)
            && darkness >= t),
{
    let density = settings.rects_per_pixel;
    if density.num > 0 {
        let n = first_half * density.den * FULL_DARKNESS;
        let d = density.num as int;
        let t = ceil_div(n, d);
        lemma_ceil_div(n, d);
        if darkness >= t {
            assert(darkness * d >= t * d) by (nonlinear_arith)
                requires
                    darkness >= t,
                    d > 0,
            ;
        } else {
            assert(darkness * d + d <= t * d) by (nonlinear_arith)
                requires
                    darkness + 1 <= t,
                    d > 0,
            ;
        }
    }
}

/// A share of at least one rectangle at a proper density is due some darkness.
pub proof fn lemma_target_positive(settings: Settings, first_half: int)
    requires
        settings.wf(),
        first_half >= 1,
    ensures
        target_darkness(settings, first_half) matches Some(t) ==> t >= 1,
{
    let density = settings.rects_per_pixel;
    if density.num > 0 {
        let n = first_half * density.den * FULL_DARKNESS;
        let d = density.num as int;
        lemma_ceil_div(n, d);
        assert(n >= 1) by (nonlinear_arith)
            requires
                n == first_half * density.den * FULL_DARKNESS,
                first_half >= 1,
                density.den >= 1,
                FULL_DARKNESS >= 1,
        ;
        let t = ceil_div(n, d);
        if t <= 0 {
            assert(t * d <= 0) by (nonlinear_arith)
                requires
                    t <= 0,
                    d > 0,
            ;
        }
    }
}

/// The clipped darkness that `first_half` rectangles are due, or `None`
/// when no clipped darkness that fits in a `u128` reaches it.
pub fn target_for(settings: Settings, first_half: u64) -> (t: Option<u128>)
    requires
        settings.wf(),
    ensures
        t == match target_darkness(settings, first_half as int) {
            Some(v) => if v <= u128::MAX { Some(v as u128) } else { None },
            None => None,
        },
{
    let density: Ratio = settings.rects_per_pixel;
    if density.num == 0 {
        return None;
    }
    assert(0 <= first_half * FULL_DARKNESS <= 0xFFFF_FFFF_FFFF_FFFF * 1_095_216_660_480) by (nonlinear_arith)
        requires
            0 <= first_half <= 0xFFFF_FFFF_FFFF_FFFF,
            FULL_DARKNESS == 1_095_216_660_480,
    ;
    let share: u128 = first_half as u128 * FULL_DARKNESS;
    let ghost n: int = first_half * density.den * FULL_DARKNESS;
    proof {
        assert(density.den * share == n) by (nonlinear_arith)
            requires
                share == first_half * FULL_DARKNESS,
                n == first_half * density.den * FULL_DARKNESS,
        ;
        lemma_ceil_div(n, density.num as int);
    }
    match mul_div(density.den, share, density.num) {
        None => None,
        Some((q, r)) => {
            if r == 0 {
                Some(q)
            } else if q == u128::MAX {
                None
            } else {
                Some(q + 1)
            }
        },
    }
}

/// `total / 255 * rects_per_pixel` rounded to the nearest integer, halves up:
/// the number of rectangles that the density asks for on an image whose
/// darkness is `total` 255ths of a pixel.
pub open spec fn rounded_rects(total: int, settings: Settings) -> int {
    let density = settings.rects_per_pixel;
    (2 * total * density.num + 255 * density.den) / (510 * density.den)
}

/// The number of rectangles to draw: what the density asks for, capped at
/// `MAX_RECTS`.
pub open spec fn num_rects(total: int, settings: Settings) -> int {
    if rounded_rects(total, settings) <= MAX_RECTS {
        rounded_rects(total, settings)
    } else {
        MAX_RECTS as int
    }
}

/// The settings that make the density exactly `num_rects / (total / 255)`.
/// With no darkness at all there is nothing to divide by, and the settings
/// stay as they are.
pub open spec fn recalibrated(total: int, settings: Settings) -> Settings {
    if total == 0 {
        settings
    } else {
        Settings {
            rects_per_pixel: Ratio { num: (255 * num_rects(total, settings)) as u128, den: total as u128 },
        }
    }
}

/// The rounded product in two steps: first by the density, then by 255.
proof fn lemma_round_in_steps(x: int, den: int)
    requires
        0 <= x,
        0 < den,
    ensures
        (x + 255 * den) / (510 * den) == (x / den + 255) / 510,
{
    lemma_hoist_over_denominator(x, 255, den as nat);
    lemma_div_denominator(x + 255 * den, den, 510);
}

/// An image without darkness is due no rectangle.
pub proof fn lemma_no_darkness_no_rects(settings: Settings)
    requires
        settings.wf(),
    ensures
        num_rects(0, settings) == 0,
{
    let density = settings.rects_per_pixel;
    assert(2 * 0 * density.num == 0) by (nonlinear_arith);
    lemma_round_in_steps(0, density.den as int);
}

/// The number of rectangles to draw for an image whose darkness is `total`
/// 255ths of a pixel, and the settings recalibrated to that number.
pub fn calibrate(total: u128, settings: Settings) -> (r: (u64, Settings))
    requires
        settings.wf(),
    ensures
        r.0 == num_rects(total as int, settings),
        r.1 == recalibrated(total as int, settings),
        r.1.wf(),
        r.0 <= MAX_RECTS,
        total == 0 ==> r.0 == 0,
{
    let density: Ratio = settings.rects_per_pixel;
    if total == 0 {
        proof {
            lemma_no_darkness_no_rects(settings);
        }
        return (0, settings);
    }
    let ghost x: int = 2 * total * density.num;
    let ghost tn: int = density.num * total;
    proof {
        assert(x == 2 * tn && tn >= 0) by (nonlinear_arith)
            requires
                x == 2 * total * density.num,
                tn == density.num * total,
                total >= 0,
                density.num >= 0,
        ;
        lemma_round_in_steps(x, density.den as int);
    }
    let rects: u64 = match mul_div(density.num, total, density.den) {
        None => {
            proof {
                lemma_div_is_ordered(tn, x, density.den as int);
            }
            MAX_RECTS
        },
        Some((q, r)) => {
            let carry: u128 = if r >= density.den - r { 1 } else { 0 };
            proof {
                vstd::arithmetic::div_mod::lemma_fundamental_div_mod(tn, density.den as int);
                assert(x == (2 * q + carry) * density.den + (2 * r - carry * density.den))
                    by (nonlinear_arith)
                    requires
                        x == 2 * tn,
                        tn == density.den * q + r,
                ;
                lemma_quotient_unique(
                    x,
                    density.den as int,
                    2 * q + carry,
                    2 * r - carry * density.den,
                );
            }
            if q > 0xFFFF_FFFF_FFFF_FFFF {
                MAX_RECTS
            } else {
                let rounded: u128 = (2 * q + carry + 255) / 510;
                if rounded > MAX_RECTS as u128 {
                    MAX_RECTS
                } else {
                    rounded as u64
                }
            }
        },
    };
    (rects, Settings { rects_per_pixel: Ratio { num: 255 * rects as u128, den: total } })
}

} // verus!
