use vstd::prelude::*;
use crate::moving_sphere::{floor_sqrt, isqrt, lemma_floor_sqrt_exists, lemma_floor_sqrt_unique};
use crate::vector_3d::Vector3D;

verus! {

/// The value of a full color channel: a color holds channels in units of
/// `1 / COLOR_ONE`. It is `256²`, so that scaling a gamma-corrected channel
/// to bytes is a square root of the averaged channel.
pub const COLOR_ONE: i64 = 65536;

/// A quantized pixel, each channel in `[0, 255]`.
#[derive(Clone, Copy, Debug, PartialEq, Eq, Structural)]
pub struct Pixel {
    pub r: u8,
    pub g: u8,
    pub b: u8,
}

/// One channel of a color summed over `samples` samples, as a byte: average,
/// correct for gamma 2 (square root), clamp to `[0, 0.999]`, scale by 256
/// and truncate. With channels in units of `1 / 256²` this is the square
/// root of the average rounded down, capped at 255; a channel that is not
/// positive gives 0.
pub open spec fn channel_byte(sum: int, samples: int) -> int {
    if sum <= 0 {
        0
    } else if floor_sqrt(sum / samples) > 255 {
        255
    } else {
        floor_sqrt(sum / samples)
    }
}

fn quantize(sum: i64, samples: i32) -> (r: u8)
    requires
        samples > 0,
    ensures
        r == channel_byte(sum as int, samples as int),
{
    if sum <= 0 {
        return 0;
    }
    let average = (sum as u64) / (samples as u64);
    let root = isqrt(average as u128);
    proof {
        lemma_floor_sqrt_unique(average as int, root as int);
    }
    if root > 255 {
        255
    } else {
        root as u8
    }
}

/// Turns a color accumulated over `samples_per_pixel` samples into a pixel,
/// channel by channel.
pub fn color_code(color: &Vector3D, samples_per_pixel: i32) -> (r: Pixel)
    requires
        samples_per_pixel > 0,
    ensures
        r.r == channel_byte(color.x as int, samples_per_pixel as int),
        r.g == channel_byte(color.y as int, samples_per_pixel as int),
        r.b == channel_byte(color.z as int, samples_per_pixel as int),
{
    Pixel {
        r: quantize(color.x, samples_per_pixel),
        g: quantize(color.y, samples_per_pixel),
        b: quantize(color.z, samples_per_pixel),
    }
}

/// Quantization stays in `[0, 255]`: a channel that is not positive (a zero
/// color in particular) gives 0, and a saturated one, whose average is at
/// least a full channel, gives 255 rather than 256. It never decreases as the
/// channel grows.
pub proof fn lemma_channel_byte_bounds(sum: int, other: int, samples: int)
    requires
        samples > 0,
    ensures
        0 <= channel_byte(sum, samples) <= 255,
        sum <= 0 ==> channel_byte(sum, samples) == 0,
        sum >= COLOR_ONE * samples ==> channel_byte(sum, samples) == 255,
        sum <= other ==> channel_byte(sum, samples) <= channel_byte(other, samples),
{
    if other > 0 {
        vstd::arithmetic::div_mod::lemma_div_pos_is_pos(other, samples);
        lemma_floor_sqrt_exists(other / samples);
    }
    if sum > 0 {
        let q = sum / samples;
        vstd::arithmetic::div_mod::lemma_div_pos_is_pos(sum, samples);
        lemma_floor_sqrt_exists(q);
        let s = floor_sqrt(q);
        if sum >= COLOR_ONE * samples {
            vstd::arithmetic::div_mod::lemma_div_is_ordered(COLOR_ONE * samples, sum, samples);
            vstd::arithmetic::div_mod::lemma_div_multiples_vanish(COLOR_ONE as int, samples);
            if s <= 255 {
                assert((s + 1) * (s + 1) <= 65536) by (nonlinear_arith)
                    requires
                        0 <= s <= 255,
                ;
            }
        }
        if sum <= other {
            let q2 = other / samples;
            vstd::arithmetic::div_mod::lemma_div_is_ordered(sum, other, samples);
            lemma_floor_sqrt_exists(q2);
            let s2 = floor_sqrt(q2);
            if s2 < s {
                assert((s2 + 1) * (s2 + 1) <= s * s) by (nonlinear_arith)
                    requires
                        0 <= s2 < s,
                ;
            }
        }
    }
}

} // verus!
