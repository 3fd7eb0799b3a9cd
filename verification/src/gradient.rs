//! The piecewise-linear heat gradient: an ordered table of stops mapping
//! a ratio in the unit interval to a color, with linear interpolation
//! between the bracketing pair of stops.
//!
//! All arithmetic is exact over integers: a ratio is kept as the fraction
//! `age / lifetime`, a stop position in hundredths of the unit interval,
//! and a channel intensity in ten-thousandths of full scale.

use vstd::prelude::*;
use vstd::arithmetic::div_mod::{lemma_div_by_multiple, lemma_div_is_ordered};

use crate::color::Rgba;

verus! {

/// One gradient stop: a position on the unit interval, in hundredths, and
/// the linear-space color shown there, each channel in ten-thousandths.
#[derive(Clone, Copy, PartialEq, Eq, Structural, Debug)]
pub struct GradientStop {
    pub threshold: u32,
    pub red: u32,
    pub green: u32,
    pub blue: u32,
}

impl GradientStop {
    /// Channel intensities within scale.
    pub open spec fn wf(self) -> bool {
        self.red <= 10000 && self.green <= 10000 && self.blue <= 10000
    }

    /// The stop's own color as a display pixel, each channel scaled down
    /// to a byte by truncation.
    pub open spec fn spec_rgba(self) -> Rgba {
        Rgba {
            r: (255 * self.red / 10000) as u8,
            g: (255 * self.green / 10000) as u8,
            b: (255 * self.blue / 10000) as u8,
            a: 255,
        }
    }
}

/// An ordered stop table covering the whole unit interval.
#[derive(Clone, Debug)]
pub struct Gradient {
    pub stops: Vec<GradientStop>,
}

impl Gradient {
    /// Well-formedness: at least two stops, positions strictly increasing
    /// from the very start of the unit interval to its very end, channels
    /// within scale.
    pub open spec fn wf(self) -> bool {
        &&& self.stops@.len() >= 2
        &&& self.stops@[0].threshold == 0
        &&& self.stops@[self.stops@.len() - 1].threshold == 100
        &&& forall|i: int, j: int|
            0 <= i < j < self.stops@.len() ==> (#[trigger] self.stops@[i]).threshold
                < (#[trigger] self.stops@[j]).threshold
        &&& forall|i: int| 0 <= i < self.stops@.len() ==> (#[trigger] self.stops@[i]).wf()
    }

    /// The stock heat table: black over dark red and yellow up to white,
    /// in linear intensities.
    pub fn heat() -> (g: Gradient)
        ensures
            g.wf(),
            g.stops@.len() == 4,
            g.stops@[0] == (GradientStop { threshold: 0, red: 0, green: 0, blue: 0 }),
            g.stops@[1] == (GradientStop { threshold: 20, red: 5451, green: 0, blue: 0 }),
            g.stops@[2] == (GradientStop { threshold: 66, red: 10000, green: 10000, blue: 0 }),
            g.stops@[3] == (GradientStop { threshold: 100, red: 10000, green: 10000, blue: 10000 }),
    {
        let mut stops: Vec<GradientStop> = Vec::new();
        stops.push(GradientStop { threshold: 0, red: 0, green: 0, blue: 0 });
        stops.push(GradientStop { threshold: 20, red: 5451, green: 0, blue: 0 });
        stops.push(GradientStop { threshold: 66, red: 10000, green: 10000, blue: 0 });
        stops.push(GradientStop { threshold: 100, red: 10000, green: 10000, blue: 10000 });
        Gradient { stops }
    }
}

/// One linearly interpolated channel, scaled down to a byte.
///
/// The fraction `excess / den` is how far the ratio sits between the two
/// bracketing stops; the channel runs from `c1` to `c2` in ten-thousandths.
pub open spec fn spec_interp_channel(c1: int, c2: int, excess: int, den: int) -> int {
    if c2 >= c1 {
        255 * (c1 * den + (c2 - c1) * excess) / (10000 * den)
    } else {
        255 * (c1 * den - (c1 - c2) * excess) / (10000 * den)
    }
}

/// The gradient color for ratio `age / lifetime`, searching for the
/// bracketing pair of stops from index `i` on; the last stop's own color
/// when no pair brackets the ratio.
pub open spec fn spec_gradient_color_from(g: Gradient, age: int, lifetime: int, i: int) -> Rgba
    decreases g.stops@.len() - i,
{
    if i + 1 < g.stops@.len() {
        let s1 = g.stops@[i];
        let s2 = g.stops@[i + 1];
        if 100 * age >= s1.threshold * lifetime && 100 * age <= s2.threshold * lifetime {
            let den = lifetime * (s2.threshold - s1.threshold);
            let excess = 100 * age - s1.threshold * lifetime;
            Rgba {
                r: spec_interp_channel(s1.red as int, s2.red as int, excess, den) as u8,
                g: spec_interp_channel(s1.green as int, s2.green as int, excess, den) as u8,
                b: spec_interp_channel(s1.blue as int, s2.blue as int, excess, den) as u8,
                a: 255,
            }
        } else {
            spec_gradient_color_from(g, age, lifetime, i + 1)
        }
    } else {
        g.stops@[g.stops@.len() - 1].spec_rgba()
    }
}

/// The gradient color for ratio `age / lifetime`.
pub open spec fn spec_gradient_color(g: Gradient, age: int, lifetime: int) -> Rgba {
    spec_gradient_color_from(g, age, lifetime, 0)
}

/// A ratio of zero takes the coldest stop's own color.
pub proof fn lemma_gradient_at_zero(g: Gradient, lifetime: int)
    requires
        g.wf(),
        lifetime >= 1,
    ensures
        spec_gradient_color(g, 0, lifetime) == g.stops@[0].spec_rgba(),
{
    let s1 = g.stops@[0];
    let s2 = g.stops@[1];
    assert(s1.threshold * lifetime == 0) by (nonlinear_arith)
        requires
            s1.threshold == 0,
    ;
    assert(s2.threshold * lifetime >= 0) by (nonlinear_arith)
        requires
            s2.threshold >= 0,
            lifetime >= 1,
    ;
    assert(s1.threshold < s2.threshold);
    let den = lifetime * (s2.threshold - s1.threshold);
    assert(lifetime * ((s2.threshold - s1.threshold) as int) > 0) by (nonlinear_arith)
        requires
            lifetime >= 1,
            s1.threshold < s2.threshold,
    ;
    let c = spec_gradient_color(g, 0, lifetime);
    assert forall|c1: int, c2: int| 0 <= c1 <= 10000 && 0 <= c2 <= 10000 implies
        spec_interp_channel(c1, c2, 0, den) == 255 * c1 / 10000 by {
        lemma_interp_at_ends(c1, c2, den);
    }
    assert(c.r == s1.spec_rgba().r && c.g == s1.spec_rgba().g && c.b == s1.spec_rgba().b
        && c.a == 255);
    assert(c == s1.spec_rgba());
}

/// With no excess the interpolation returns the first stop's channel.
proof fn lemma_interp_at_ends(c1: int, c2: int, den: int)
    requires
        0 <= c1 <= 10000,
        0 <= c2 <= 10000,
        den > 0,
    ensures
        spec_interp_channel(c1, c2, 0, den) == 255 * c1 / 10000,
{
    assert((c2 - c1) * 0 == 0) by (nonlinear_arith);
    assert((c1 - c2) * 0 == 0) by (nonlinear_arith);
    vstd::arithmetic::div_mod::lemma_div_multiples_vanish_quotient(den, 255 * c1, 10000);
    assert(255 * (c1 * den + 0) == den * (255 * c1)) by (nonlinear_arith);
    assert(255 * (c1 * den - 0) == den * (255 * c1)) by (nonlinear_arith);
    assert(10000 * den == den * 10000) by (nonlinear_arith);
}

/// Computes one interpolated channel byte.
fn interp_channel(c1: u32, c2: u32, excess: u64, den: u64) -> (r: u8)
    requires
        0 < den <= 100 * (u32::MAX as int),
        excess <= den,
        c1 <= 10000,
        c2 <= 10000,
    ensures
        r == spec_interp_channel(c1 as int, c2 as int, excess as int, den as int),
{
    let num: u64 = if c2 >= c1 {
        proof {
            assert(c1 as int * den <= 10000 * den && c1 as int * den + (c2 - c1) as int * excess
                <= 10000 * den && (c2 - c1) as int * excess >= 0 && 10000 * den <= 10000 * 100 * (
            u32::MAX as int)) by (nonlinear_arith)
                requires
                    c1 <= 10000,
                    c2 <= 10000,
                    c2 >= c1,
                    0 < den <= 100 * (u32::MAX as int),
                    excess <= den,
            ;
        }
        (c1 as u64) * den + ((c2 - c1) as u64) * excess
    } else {
        proof {
            assert((c1 - c2) as int * excess <= c1 as int * den && c1 as int * den <= 10000 * den
                && 10000 * den <= 10000 * 100 * (u32::MAX as int)) by (nonlinear_arith)
                requires
                    c1 <= 10000,
                    c2 <= 10000,
                    c2 < c1,
                    0 < den <= 100 * (u32::MAX as int),
                    excess <= den,
            ;
        }
        (c1 as u64) * den - ((c1 - c2) as u64) * excess
    };
    proof {
        assert(num <= 10000 * (den as int));
        assert(255 * num <= u64::MAX && 10000 * den <= u64::MAX) by (nonlinear_arith)
            requires
                num <= 10000 * (den as int),
                0 < den <= 100 * (u32::MAX as int),
        ;
    }
    let q: u64 = (255 * num) / (10000 * den);
    proof {
        lemma_div_is_ordered(255 * (num as int), 255 * (10000 * (den as int)), 10000 * (den as int));
        lemma_div_by_multiple(255, 10000 * (den as int));
        assert((255 * (10000 * (den as int))) / (10000 * (den as int)) == 255);
        assert(255 * (num as int) <= 255 * (10000 * (den as int))) by (nonlinear_arith)
            requires
                num <= 10000 * (den as int),
        ;
        assert(q <= 255);
    }
    q as u8
}

/// Maps the ratio `age / lifetime` through the gradient: the color of
/// the bracketing pair of stops, linearly interpolated. A ratio above
/// the unit interval falls past every pair and clamps to the hottest
/// stop's own color.
pub fn heatmap_color(g: &Gradient, age: u32, lifetime: u32) -> (c: Rgba)
    requires
        g.wf(),
        1 <= lifetime,
    ensures
        c == spec_gradient_color(*g, age as int, lifetime as int),
{
    let n = g.stops.len();
    let mut i: usize = 0;
    while i + 1 < n
        invariant
            g.wf(),
            n == g.stops@.len(),
            i < n,
            1 <= lifetime,
            spec_gradient_color(*g, age as int, lifetime as int) == spec_gradient_color_from(
                *g,
                age as int,
                lifetime as int,
                i as int,
            ),
        decreases n - i,
    {
        let s1 = g.stops[i];
        let s2 = g.stops[i + 1];
        proof {
            assert(100 * (age as int) <= 100 * (u32::MAX as int) && s1.threshold as int * (
            lifetime as int) <= 100 * (u32::MAX as int) && s2.threshold as int * (lifetime as int)
                <= 100 * (u32::MAX as int)) by (nonlinear_arith)
                requires
                    age <= u32::MAX,
                    lifetime <= u32::MAX,
                    s1.threshold <= 100,
                    s2.threshold <= 100,
            ;
            assert(s1.threshold <= 100 && s2.threshold <= 100) by {
                assert(g.stops@[i as int].threshold < g.stops@[n - 1].threshold || i == n - 1);
                assert(g.stops@[i + 1].threshold < g.stops@[n - 1].threshold || i + 1 == n - 1);
            }
        }
        let v: u64 = 100 * (age as u64);
        let lo: u64 = (s1.threshold as u64) * (lifetime as u64);
        let hi: u64 = (s2.threshold as u64) * (lifetime as u64);
        if v >= lo && v <= hi {
            proof {
                assert(s2.threshold > s1.threshold);
                assert((lifetime as int) * ((s2.threshold - s1.threshold) as int) > 0
                    && (lifetime as int) * ((s2.threshold - s1.threshold) as int) <= 100 * (
                u32::MAX as int) && (lifetime as int) * ((s2.threshold - s1.threshold) as int)
                    == s2.threshold as int * (lifetime as int) - s1.threshold as int * (
                lifetime as int)) by (nonlinear_arith)
                    requires
                        1 <= lifetime <= u32::MAX,
                        s1.threshold < s2.threshold,
                        s2.threshold <= 100,
                ;
            }
            let den: u64 = (lifetime as u64) * ((s2.threshold - s1.threshold) as u64);
            let excess: u64 = v - lo;
            let r = interp_channel(s1.red, s2.red, excess, den);
            let gr = interp_channel(s1.green, s2.green, excess, den);
            let b = interp_channel(s1.blue, s2.blue, excess, den);
            return Rgba { r, g: gr, b, a: 255 };
        }
        i += 1;
    }
    let s = g.stops[n - 1];
    proof {
        assert(255 * (s.red as int) <= u64::MAX && 255 * (s.green as int) <= u64::MAX && 255 * (
        s.blue as int) <= u64::MAX);
        lemma_div_is_ordered(255 * (s.red as int), (255 * 10000) as int, 10000);
        lemma_div_is_ordered(255 * (s.green as int), (255 * 10000) as int, 10000);
        lemma_div_is_ordered(255 * (s.blue as int), (255 * 10000) as int, 10000);
    }
    let r = ((255u64 * (s.red as u64)) / 10000) as u8;
    let gr = ((255u64 * (s.green as u64)) / 10000) as u8;
    let b = ((255u64 * (s.blue as u64)) / 10000) as u8;
    Rgba { r, g: gr, b, a: 255 }
}

} // verus!
