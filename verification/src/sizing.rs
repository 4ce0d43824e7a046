//! The size at which an image is displayed.
//!
//! An image larger than the screen is shrunk to fit it; an image smaller than
//! the minimum window in both dimensions is enlarged to cover it; any other
//! image keeps its size. Scale factors are fractions of whole numbers, and
//! all arithmetic is exact.

use crate::config::Config;
use vstd::prelude::*;

verus! {

/// Screen width assumed where the system cannot be asked for it.
pub const FALLBACK_SCREEN_WIDTH: u32 = 800;

/// Screen height assumed where the system cannot be asked for it.
pub const FALLBACK_SCREEN_HEIGHT: u32 = 600;

/// A scale factor, as the fraction `num / den`.
pub struct Scale {
    pub num: int,
    pub den: int,
}

impl Scale {
    /// The fraction is `a / b`.
    pub open spec fn is(self, a: int, b: int) -> bool {
        self.num == a && self.den == b
    }

    /// The fraction is at most `a / b`, for positive `b` and a positive
    /// denominator of its own.
    pub open spec fn at_most(self, a: int, b: int) -> bool {
        self.num * b <= a * self.den
    }

    /// The fraction is at least `a / b`, for positive `b` and a positive
    /// denominator of its own.
    pub open spec fn at_least(self, a: int, b: int) -> bool {
        self.num * b >= a * self.den
    }
}

/// The factor that shrinks an image to fit the screen: the least of
/// `screen_width / image_width`, `screen_height / image_height` and 1. It
/// never enlarges.
pub open spec fn shrink_scale(
    image_width: int,
    image_height: int,
    screen_width: int,
    screen_height: int,
) -> Scale {
    if screen_width >= image_width && screen_height >= image_height {
        Scale { num: 1, den: 1 }
    } else if screen_width * image_height <= screen_height * image_width {
        Scale { num: screen_width, den: image_width }
    } else {
        Scale { num: screen_height, den: image_height }
    }
}

/// The factor that enlarges an image to cover the minimum window: the
/// greatest of `min_width / image_width`, `min_height / image_height` and 1.
/// It never shrinks.
pub open spec fn grow_scale(
    image_width: int,
    image_height: int,
    min_width: int,
    min_height: int,
) -> Scale {
    if min_width <= image_width && min_height <= image_height {
        Scale { num: 1, den: 1 }
    } else if min_width * image_height >= min_height * image_width {
        Scale { num: min_width, den: image_width }
    } else {
        Scale { num: min_height, den: image_height }
    }
}

/// The image is enlarged: it is smaller than the minimum window in both
/// dimensions.
pub open spec fn grows(image_width: int, image_height: int, min_width: int, min_height: int) -> bool {
    image_width < min_width && image_height < min_height
}

/// The factor by which an image is displayed.
pub open spec fn display_scale(
    image_width: int,
    image_height: int,
    screen_width: int,
    screen_height: int,
    min_width: int,
    min_height: int,
) -> Scale {
    if grows(image_width, image_height, min_width, min_height) {
        grow_scale(image_width, image_height, min_width, min_height)
    } else {
        shrink_scale(image_width, image_height, screen_width, screen_height)
    }
}

/// `x * num / den` rounded to the nearest whole number, halves upwards.
pub open spec fn round_ratio(x: int, num: int, den: int) -> int
    recommends
        den > 0,
{
    (2 * (x * num) + den) / (2 * den)
}

/// A dimension of `x` pixels under a scale factor: the rounded product, but
/// at least 1 pixel and at most what 32 bits hold.
pub open spec fn scaled(x: int, scale: Scale) -> int {
    let rounded = round_ratio(x, scale.num, scale.den);
    if rounded < 1 {
        1
    } else if rounded > u32::MAX {
        u32::MAX as int
    } else {
        rounded
    }
}

/// The size at which an image is displayed: both dimensions under the
/// [`display_scale`].
pub open spec fn spec_display_size(
    image_width: int,
    image_height: int,
    screen_width: int,
    screen_height: int,
    min_width: int,
    min_height: int,
) -> (int, int) {
    let scale = display_scale(
        image_width,
        image_height,
        screen_width,
        screen_height,
        min_width,
        min_height,
    );
    (scaled(image_width, scale), scaled(image_height, scale))
}

/// The screen size assumed where the system cannot be asked for it: 800 by
/// 600 pixels.
pub fn get_screen_size() -> (size: (u32, u32))
    ensures
        size == (FALLBACK_SCREEN_WIDTH, FALLBACK_SCREEN_HEIGHT),
        size == (800u32, 600u32),
{
    (FALLBACK_SCREEN_WIDTH, FALLBACK_SCREEN_HEIGHT)
}

/// Scales one dimension by `num / den`.
pub fn scale_dimension(x: u32, num: u32, den: u32) -> (r: u32)
    requires
        den > 0,
    ensures
        r == scaled(x as int, (Scale { num: num as int, den: den as int })),
        r >= 1,
{
    assert(x * num <= 0xffff_ffff * 0xffff_ffff) by (nonlinear_arith)
        requires
            0 <= x <= 0xffff_ffff,
            0 <= num <= 0xffff_ffff,
    ;
    let product: u64 = (x as u64) * (num as u64);
    let doubled: u128 = 2 * (product as u128) + (den as u128);
    let rounded: u128 = doubled / (2 * (den as u128));
    if rounded < 1 {
        1
    } else if rounded > u32::MAX as u128 {
        u32::MAX
    } else {
        rounded as u32
    }
}

/// Computes the size at which an image is displayed.
///
/// The image is `image_width` by `image_height` pixels, the screen
/// `screen_width` by `screen_height`. An image smaller than the minimum
/// window of `config` in both dimensions is enlarged by the greater of the
/// two factors that bring a dimension to its minimum. Any other image is
/// shrunk by the lesser of the two factors that bring a dimension down to the
/// screen, or keeps its size where it fits the screen. Each dimension of the
/// result is rounded to the nearest pixel, halves upwards; it is at least 1
/// and at most the largest number of 32 bits.
pub fn compute_display_size(
    image_width: u32,
    image_height: u32,
    screen_width: u32,
    screen_height: u32,
    config: &Config,
) -> (size: (u32, u32))
    requires
        image_width > 0,
        image_height > 0,
    ensures
        (size.0 as int, size.1 as int) == spec_display_size(
            image_width as int,
            image_height as int,
            screen_width as int,
            screen_height as int,
            config.min_window_width as int,
            config.min_window_height as int,
        ),
{
    let min_width = config.min_window_width;
    let min_height = config.min_window_height;
    let (num, den) = if image_width < min_width && image_height < min_height {
        if wider_ratio(min_width, image_width, min_height, image_height) {
            (min_width, image_width)
        } else {
            (min_height, image_height)
        }
    } else if screen_width >= image_width && screen_height >= image_height {
        (1, 1)
    } else if wider_ratio(screen_height, image_height, screen_width, image_width) {
        (screen_width, image_width)
    } else {
        (screen_height, image_height)
    };
    (scale_dimension(image_width, num, den), scale_dimension(image_height, num, den))
}

/// Computes the size at which an image is displayed, for an image of any
/// size: an image without pixels, of width or height zero, has no display
/// size.
pub fn checked_display_size(
    image_width: u32,
    image_height: u32,
    screen_width: u32,
    screen_height: u32,
    config: &Config,
) -> (size: Option<(u32, u32)>)
    ensures
        size is Some <==> image_width > 0 && image_height > 0,
        size matches Some(s) ==> (s.0 as int, s.1 as int) == spec_display_size(
            image_width as int,
            image_height as int,
            screen_width as int,
            screen_height as int,
            config.min_window_width as int,
            config.min_window_height as int,
        ),
{
    if image_width > 0 && image_height > 0 {
        Some(compute_display_size(image_width, image_height, screen_width, screen_height, config))
    } else {
        None
    }
}

/// Tells whether `a / b` is at least `c / d`, for positive `b` and `d`.
fn wider_ratio(a: u32, b: u32, c: u32, d: u32) -> (r: bool)
    ensures
        r == (a * d >= c * b),
{
    assert(a * d <= 0xffff_ffff * 0xffff_ffff) by (nonlinear_arith)
        requires
            0 <= a <= 0xffff_ffff,
            0 <= d <= 0xffff_ffff,
    ;
    assert(c * b <= 0xffff_ffff * 0xffff_ffff) by (nonlinear_arith)
        requires
            0 <= c <= 0xffff_ffff,
            0 <= b <= 0xffff_ffff,
    ;
    (a as u64) * (d as u64) >= (c as u64) * (b as u64)
}

/// The rounded product is the whole number nearest to `x * num / den`, the
/// upper one where two are equally near.
pub proof fn lemma_round_ratio_nearest(x: int, num: int, den: int)
    requires
        den > 0,
    ensures
        2 * (x * num) - den < 2 * den * round_ratio(x, num, den) <= 2 * (x * num) + den,
{
    let a = 2 * (x * num) + den;
    let b = 2 * den;
    assert(a - b < b * (a / b) <= a) by (nonlinear_arith)
        requires
            b > 0,
    ;
}

/// A product that is at most `bound` is at most `bound` after rounding.
pub proof fn lemma_round_ratio_at_most(x: int, num: int, den: int, bound: int)
    requires
        den > 0,
        x * num <= bound * den,
    ensures
        round_ratio(x, num, den) <= bound,
{
    lemma_round_ratio_nearest(x, num, den);
    let r = round_ratio(x, num, den);
    assert(r <= bound) by (nonlinear_arith)
        requires
            den > 0,
            2 * den * r <= 2 * (x * num) + den,
            x * num <= bound * den,
    ;
}

/// A product that is at least `bound` is at least `bound` after rounding.
pub proof fn lemma_round_ratio_at_least(x: int, num: int, den: int, bound: int)
    requires
        den > 0,
        x * num >= bound * den,
    ensures
        round_ratio(x, num, den) >= bound,
{
    lemma_round_ratio_nearest(x, num, den);
    let r = round_ratio(x, num, den);
    assert(r >= bound) by (nonlinear_arith)
        requires
            den > 0,
            2 * (x * num) - den < 2 * den * r,
            x * num >= bound * den,
    ;
}

/// The shrinking factor is the least of the three it is chosen from.
pub proof fn lemma_shrink_scale_is_least(
    image_width: int,
    image_height: int,
    screen_width: int,
    screen_height: int,
)
    requires
        image_width > 0,
        image_height > 0,
        screen_width >= 0,
        screen_height >= 0,
    ensures
        ({
            let s = shrink_scale(image_width, image_height, screen_width, screen_height);
            &&& s.den > 0
            &&& s.num >= 0
            &&& s.is(screen_width, image_width) || s.is(screen_height, image_height) || s.is(1, 1)
            &&& s.at_most(screen_width, image_width)
            &&& s.at_most(screen_height, image_height)
            &&& s.at_most(1, 1)
        }),
{
    let s = shrink_scale(image_width, image_height, screen_width, screen_height);
    if screen_width >= image_width && screen_height >= image_height {
    } else if screen_width * image_height <= screen_height * image_width {
        assert(screen_width <= image_width) by (nonlinear_arith)
            requires
                image_width > 0,
                image_height > 0,
                screen_width >= 0,
                screen_height >= 0,
                screen_width * image_height <= screen_height * image_width,
                !(screen_width >= image_width && screen_height >= image_height),
        ;
        assert(screen_width * image_width == image_width * screen_width) by (nonlinear_arith);
    } else {
        assert(screen_height <= image_height) by (nonlinear_arith)
            requires
                image_width > 0,
                image_height > 0,
                screen_width >= 0,
                screen_height >= 0,
                screen_width * image_height > screen_height * image_width,
                !(screen_width >= image_width && screen_height >= image_height),
        ;
        assert(screen_height * image_width <= screen_width * image_height);
        assert(screen_height * image_height == image_height * screen_height) by (nonlinear_arith);
    }
}

/// The enlarging factor is the greatest of the three it is chosen from.
pub proof fn lemma_grow_scale_is_greatest(
    image_width: int,
    image_height: int,
    min_width: int,
    min_height: int,
)
    requires
        image_width > 0,
        image_height > 0,
        min_width >= 0,
        min_height >= 0,
    ensures
        ({
            let s = grow_scale(image_width, image_height, min_width, min_height);
            &&& s.den > 0
            &&& s.num >= 0
            &&& s.is(min_width, image_width) || s.is(min_height, image_height) || s.is(1, 1)
            &&& s.at_least(min_width, image_width)
            &&& s.at_least(min_height, image_height)
            &&& s.at_least(1, 1)
        }),
{
    let s = grow_scale(image_width, image_height, min_width, min_height);
    if min_width <= image_width && min_height <= image_height {
    } else if min_width * image_height >= min_height * image_width {
        assert(min_width >= image_width) by (nonlinear_arith)
            requires
                image_width > 0,
                image_height > 0,
                min_width >= 0,
                min_height >= 0,
                min_width * image_height >= min_height * image_width,
                !(min_width <= image_width && min_height <= image_height),
        ;
        assert(min_width * image_width == image_width * min_width) by (nonlinear_arith);
    } else {
        assert(min_height >= image_height) by (nonlinear_arith)
            requires
                image_width > 0,
                image_height > 0,
                min_width >= 0,
                min_height >= 0,
                min_width * image_height < min_height * image_width,
                !(min_width <= image_width && min_height <= image_height),
        ;
        assert(min_height * image_height == image_height * min_height) by (nonlinear_arith);
    }
}

/// An image that is not enlarged is never displayed larger than it is, and
/// never larger than a screen that has at least one pixel each way.
pub proof fn lemma_shrunk_image_fits(
    image_width: int,
    image_height: int,
    screen_width: int,
    screen_height: int,
    min_width: int,
    min_height: int,
)
    requires
        image_width > 0,
        image_height > 0,
        screen_width >= 0,
        screen_height >= 0,
        !grows(image_width, image_height, min_width, min_height),
    ensures
        ({
            let size = spec_display_size(
                image_width,
                image_height,
                screen_width,
                screen_height,
                min_width,
                min_height,
            );
            &&& 1 <= size.0 <= image_width
            &&& 1 <= size.1 <= image_height
            &&& screen_width >= 1 ==> size.0 <= screen_width
            &&& screen_height >= 1 ==> size.1 <= screen_height
        }),
{
    let s = shrink_scale(image_width, image_height, screen_width, screen_height);
    lemma_shrink_scale_is_least(image_width, image_height, screen_width, screen_height);
    assert(image_width * s.num <= image_width * s.den) by (nonlinear_arith)
        requires
            image_width > 0,
            s.num * 1 <= 1 * s.den,
    ;
    assert(image_height * s.num <= image_height * s.den) by (nonlinear_arith)
        requires
            image_height > 0,
            s.num * 1 <= 1 * s.den,
    ;
    lemma_round_ratio_at_most(image_width, s.num, s.den, image_width);
    lemma_round_ratio_at_most(image_height, s.num, s.den, image_height);
    assert(image_width * s.num == s.num * image_width) by (nonlinear_arith);
    assert(image_height * s.num == s.num * image_height) by (nonlinear_arith);
    lemma_round_ratio_at_most(image_width, s.num, s.den, screen_width);
    lemma_round_ratio_at_most(image_height, s.num, s.den, screen_height);
}

/// An image that fits the screen and is not enlarged keeps its size.
pub proof fn lemma_fitting_image_keeps_size(
    image_width: int,
    image_height: int,
    screen_width: int,
    screen_height: int,
    min_width: int,
    min_height: int,
)
    requires
        0 < image_width <= u32::MAX,
        0 < image_height <= u32::MAX,
        image_width <= screen_width,
        image_height <= screen_height,
        !grows(image_width, image_height, min_width, min_height),
    ensures
        spec_display_size(
            image_width,
            image_height,
            screen_width,
            screen_height,
            min_width,
            min_height,
        ) == (image_width, image_height),
{
    lemma_round_ratio_at_most(image_width, 1, 1, image_width);
    lemma_round_ratio_at_least(image_width, 1, 1, image_width);
    lemma_round_ratio_at_most(image_height, 1, 1, image_height);
    lemma_round_ratio_at_least(image_height, 1, 1, image_height);
}

/// An enlarged image covers the minimum window: neither dimension stays
/// below its minimum.
pub proof fn lemma_grown_image_covers_minimum(
    image_width: int,
    image_height: int,
    screen_width: int,
    screen_height: int,
    min_width: int,
    min_height: int,
)
    requires
        image_width > 0,
        image_height > 0,
        0 <= min_width <= u32::MAX,
        0 <= min_height <= u32::MAX,
        grows(image_width, image_height, min_width, min_height),
    ensures
        ({
            let size = spec_display_size(
                image_width,
                image_height,
                screen_width,
                screen_height,
                min_width,
                min_height,
            );
            &&& size.0 >= min_width
            &&& size.1 >= min_height
            &&& size.0 == min_width || size.1 == min_height
        }),
{
    let s = grow_scale(image_width, image_height, min_width, min_height);
    lemma_grow_scale_is_greatest(image_width, image_height, min_width, min_height);
    assert(image_width * s.num == s.num * image_width) by (nonlinear_arith);
    assert(image_height * s.num == s.num * image_height) by (nonlinear_arith);
    lemma_round_ratio_at_least(image_width, s.num, s.den, min_width);
    lemma_round_ratio_at_least(image_height, s.num, s.den, min_height);
    if s.is(min_width, image_width) {
        assert(image_width * min_width == min_width * image_width) by (nonlinear_arith);
        lemma_round_ratio_at_most(image_width, s.num, s.den, min_width);
    } else {
        assert(s.is(min_height, image_height));
        assert(image_height * min_height == min_height * image_height) by (nonlinear_arith);
        lemma_round_ratio_at_most(image_height, s.num, s.den, min_height);
    }
}

} // verus!
