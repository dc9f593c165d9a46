//! Separable blur of an RGBA image: one convolution along the rows, then one
//! along the columns, with the same kernel.
//!
//! Beyond a border the image continues with the pixel at that border.

use crate::kernel::{
    is_normalized, lemma_prefix_total_monotone, prefix_total, radius_of, Kernel, KERNEL_ONE,
};
use crate::shape::{
    cell, column_of, lemma_cell_coordinates, lemma_cell_in_bounds, lemma_position_coordinates,
    row_of, sample_index,
};
use crate::{FilterError, NUM_CHANNELS};
use vstd::prelude::*;

verus! {

/// The direction of a one-dimensional convolution.
#[derive(Clone, Copy, Debug, PartialEq, Eq, Structural)]
pub enum Axis {
    /// Along a row: the neighbours of a pixel are to its left and right.
    Horizontal,
    /// Along a column: the neighbours of a pixel are above and below it.
    Vertical,
}

/// The nearest coordinate inside `0 .. extent`.
pub open spec fn clamp_coordinate(position: int, extent: int) -> int {
    if position < 0 {
        0
    } else if position >= extent {
        extent - 1
    } else {
        position
    }
}

/// Channel `c` of the pixel at column `x`, row `y`.
pub open spec fn sample_at(image: Seq<u8>, width: int, x: int, y: int, c: int) -> int {
    image[sample_index(width, x, y, c)] as int
}

/// Channel `c` of the pixel that lies `offset` pixels along `axis` from the
/// pixel at column `x`, row `y`; beyond a border, of the pixel at the border.
pub open spec fn tap(
    image: Seq<u8>,
    width: int,
    height: int,
    axis: Axis,
    x: int,
    y: int,
    c: int,
    offset: int,
) -> int {
    match axis {
        Axis::Horizontal => sample_at(image, width, clamp_coordinate(x + offset, width), y, c),
        Axis::Vertical => sample_at(image, width, x, clamp_coordinate(y + offset, height), c),
    }
}

/// The first `n` terms of the weighted sum around the pixel at column `x`,
/// row `y`: weight `k` times the tap at offset `k - radius`.
pub open spec fn weighted_sum(
    image: Seq<u8>,
    weights: Seq<u32>,
    width: int,
    height: int,
    axis: Axis,
    x: int,
    y: int,
    c: int,
    n: nat,
) -> int
    decreases n,
{
    if n == 0 {
        0
    } else {
        weighted_sum(image, weights, width, height, axis, x, y, c, (n - 1) as nat) + weights[n
            - 1] * tap(image, width, height, axis, x, y, c, n - 1 - radius_of(weights))
    }
}

/// A fixed-point sum as a sample, rounded to the nearest.
pub open spec fn round_fixed(sum: int) -> int {
    (sum + KERNEL_ONE / 2) / (KERNEL_ONE as int)
}

/// Channel `c` of the pixel at column `x`, row `y` after a convolution along
/// `axis`.
pub open spec fn convolved_sample(
    image: Seq<u8>,
    weights: Seq<u32>,
    width: int,
    height: int,
    axis: Axis,
    x: int,
    y: int,
    c: int,
) -> int {
    round_fixed(weighted_sum(image, weights, width, height, axis, x, y, c, weights.len()))
}

/// The image after a convolution along `axis`.
pub open spec fn convolve_of(image: Seq<u8>, weights: Seq<u32>, width: int, height: int, axis: Axis)
    -> Seq<u8> {
    Seq::new(
        image.len(),
        |i: int|
            convolved_sample(
                image,
                weights,
                width,
                height,
                axis,
                column_of(width, i / 4),
                row_of(width, i / 4),
                i % 4,
            ) as u8,
    )
}

/// The image after a convolution along the rows and then one along the
/// columns.
pub open spec fn blur_of(image: Seq<u8>, weights: Seq<u32>, width: int, height: int) -> Seq<u8> {
    convolve_of(
        convolve_of(image, weights, width, height, Axis::Horizontal),
        weights,
        width,
        height,
        Axis::Vertical,
    )
}

/// A weighted sum of samples is at most the largest sample times the weights
/// summed.
pub proof fn lemma_weighted_sum_bounds(
    image: Seq<u8>,
    weights: Seq<u32>,
    width: int,
    height: int,
    axis: Axis,
    x: int,
    y: int,
    c: int,
    n: nat,
)
    ensures
        0 <= weighted_sum(image, weights, width, height, axis, x, y, c, n) <= 255 * prefix_total(
            weights,
            n,
        ),
    decreases n,
{
    if n > 0 {
        lemma_weighted_sum_bounds(image, weights, width, height, axis, x, y, c, (n - 1) as nat);
        let weight = weights[n - 1];
        let sample = tap(image, width, height, axis, x, y, c, n - 1 - radius_of(weights));
        assert(0 <= weight * sample <= 255 * weight) by (nonlinear_arith)
            requires
                0 <= weight,
                0 <= sample <= 255,
        ;
    }
}

/// A sample of a convolution with a normalized kernel is a byte.
pub proof fn lemma_convolved_sample_is_byte(
    image: Seq<u8>,
    weights: Seq<u32>,
    width: int,
    height: int,
    axis: Axis,
    x: int,
    y: int,
    c: int,
)
    requires
        is_normalized(weights),
    ensures
        0 <= convolved_sample(image, weights, width, height, axis, x, y, c) <= 255,
{
    lemma_weighted_sum_bounds(image, weights, width, height, axis, x, y, c, weights.len());
}

/// Moves `position` by `k - radius` and brings the result back inside
/// `0 .. extent`.
fn clamp_offset(position: usize, k: usize, radius: usize, extent: usize) -> (clamped: usize)
    requires
        position < extent,
    ensures
        clamped == clamp_coordinate(position + k - radius, extent as int),
        clamped < extent,
{
    if k < radius {
        let back: usize = radius - k;
        if back > position {
            0
        } else {
            position - back
        }
    } else {
        let ahead: usize = k - radius;
        if ahead >= extent - position {
            extent - 1
        } else {
            position + ahead
        }
    }
}

/// Position in the buffer of the first channel of the pixel that lies
/// `k - radius` pixels along `axis` from the pixel at column `x`, row `y`,
/// or of the pixel at the border before it.
fn source_index(
    width: usize,
    height: usize,
    axis: Axis,
    x: usize,
    y: usize,
    k: usize,
    radius: usize,
) -> (index: usize)
    requires
        x < width,
        y < height,
        width * height * 4 <= usize::MAX,
    ensures
        index == match axis {
            Axis::Horizontal => sample_index(
                width as int,
                clamp_coordinate(x + k - radius, width as int),
                y as int,
                0,
            ),
            Axis::Vertical => sample_index(
                width as int,
                x as int,
                clamp_coordinate(y + k - radius, height as int),
                0,
            ),
        },
        index + 3 < width * height * 4,
{
    match axis {
        Axis::Horizontal => {
            let source_x: usize = clamp_offset(x, k, radius, width);
            proof {
                lemma_cell_in_bounds(width as int, height as int, source_x as int, y as int);
            }
            (y * width + source_x) * NUM_CHANNELS
        },
        Axis::Vertical => {
            let source_y: usize = clamp_offset(y, k, radius, height);
            proof {
                lemma_cell_in_bounds(width as int, height as int, x as int, source_y as int);
            }
            (source_y * width + x) * NUM_CHANNELS
        },
    }
}

/// Adds one term to a weighted sum.
fn accumulate(sum: u64, weight: u32, sample: u8) -> (next: u64)
    requires
        sum + weight * sample <= 255 * KERNEL_ONE,
    ensures
        next == sum + weight * sample,
{
    assert(0 <= weight * sample <= 0xffff_ffff * 255) by (nonlinear_arith)
        requires
            0 <= weight <= 0xffff_ffff,
            0 <= sample <= 255,
    ;
    sum + (weight as u64) * (sample as u64)
}

/// Rounds a weighted sum to the nearest sample.
fn to_sample(sum: u64) -> (sample: u8)
    requires
        sum <= 255 * KERNEL_ONE,
    ensures
        sample == round_fixed(sum as int),
{
    let rounded: u64 = (sum + (KERNEL_ONE / 2) as u64) / (KERNEL_ONE as u64);
    assert(rounded <= 255) by (nonlinear_arith)
        requires
            rounded == (sum + 8_388_608) / 16_777_216,
            0 <= sum <= 255 * 16_777_216,
    ;
    rounded as u8
}

/// The four sums are, channel by channel, the first `n` terms of the
/// weighted sums around the pixel at column `x`, row `y`.
spec fn are_partial_sums(
    sums: (u64, u64, u64, u64),
    image: Seq<u8>,
    weights: Seq<u32>,
    width: int,
    height: int,
    axis: Axis,
    x: int,
    y: int,
    n: nat,
) -> bool {
    &&& sums.0 == weighted_sum(image, weights, width, height, axis, x, y, 0, n)
    &&& sums.1 == weighted_sum(image, weights, width, height, axis, x, y, 1, n)
    &&& sums.2 == weighted_sum(image, weights, width, height, axis, x, y, 2, n)
    &&& sums.3 == weighted_sum(image, weights, width, height, axis, x, y, 3, n)
}

/// The four samples are, channel by channel, those of the pixel at column
/// `x`, row `y` after a convolution along `axis`.
spec fn is_convolved_pixel(
    pixel: (u8, u8, u8, u8),
    image: Seq<u8>,
    weights: Seq<u32>,
    width: int,
    height: int,
    axis: Axis,
    x: int,
    y: int,
) -> bool {
    &&& pixel.0 == convolved_sample(image, weights, width, height, axis, x, y, 0)
    &&& pixel.1 == convolved_sample(image, weights, width, height, axis, x, y, 1)
    &&& pixel.2 == convolved_sample(image, weights, width, height, axis, x, y, 2)
    &&& pixel.3 == convolved_sample(image, weights, width, height, axis, x, y, 3)
}

/// With a normalized kernel, no partial sum of any channel exceeds the
/// largest sample in fixed point.
proof fn lemma_partial_sums_fit(
    image: Seq<u8>,
    weights: Seq<u32>,
    width: int,
    height: int,
    axis: Axis,
    x: int,
    y: int,
    n: nat,
)
    requires
        is_normalized(weights),
        n <= weights.len(),
    ensures
        forall|c: int|
            0 <= #[trigger] weighted_sum(image, weights, width, height, axis, x, y, c, n) <= 255
                * KERNEL_ONE,
{
    lemma_prefix_total_monotone(weights, n, weights.len());
    assert forall|c: int|
        0 <= #[trigger] weighted_sum(image, weights, width, height, axis, x, y, c, n) <= 255
            * KERNEL_ONE by {
        lemma_weighted_sum_bounds(image, weights, width, height, axis, x, y, c, n);
    }
}

/// The four channels of the pixel at column `x`, row `y` after a convolution
/// along `axis`.
fn convolve_pixel(
    buffer: &[u8],
    weights: &Vec<u32>,
    width: usize,
    height: usize,
    axis: Axis,
    x: usize,
    y: usize,
) -> (pixel: (u8, u8, u8, u8))
    requires
        buffer@.len() == width * height * 4,
        is_normalized(weights@),
        x < width,
        y < height,
    ensures
        is_convolved_pixel(
            pixel,
            buffer@,
            weights@,
            width as int,
            height as int,
            axis,
            x as int,
            y as int,
        ),
{
    let length: usize = buffer.len();
    let count: usize = weights.len();
    let radius: usize = count / 2;
    let mut red: u64 = 0;
    let mut green: u64 = 0;
    let mut blue: u64 = 0;
    let mut alpha: u64 = 0;
    let mut k: usize = 0;
    while k < count
        invariant
            k <= count,
            count == weights@.len(),
            radius == radius_of(weights@),
            is_normalized(weights@),
            length == buffer@.len(),
            length == width * height * 4,
            x < width,
            y < height,
            are_partial_sums(
                (red, green, blue, alpha),
                buffer@,
                weights@,
                width as int,
                height as int,
                axis,
                x as int,
                y as int,
                k as nat,
            ),
        decreases count - k,
    {
        let weight: u32 = weights[k];
        let index: usize = source_index(width, height, axis, x, y, k, radius);
        proof {
            let (w, h) = (width as int, height as int);
            let (px, py) = (x as int, y as int);
            let offset = k - radius;
            lemma_partial_sums_fit(buffer@, weights@, w, h, axis, px, py, (k + 1) as nat);
            assert(buffer@[index + 0] == tap(buffer@, w, h, axis, px, py, 0, offset));
            assert(buffer@[index + 1] == tap(buffer@, w, h, axis, px, py, 1, offset));
            assert(buffer@[index + 2] == tap(buffer@, w, h, axis, px, py, 2, offset));
            assert(buffer@[index + 3] == tap(buffer@, w, h, axis, px, py, 3, offset));
            assert(weighted_sum(buffer@, weights@, w, h, axis, px, py, 0, (k + 1) as nat) == red
                + weight * buffer@[index + 0]);
            assert(weighted_sum(buffer@, weights@, w, h, axis, px, py, 1, (k + 1) as nat) == green
                + weight * buffer@[index + 1]);
            assert(weighted_sum(buffer@, weights@, w, h, axis, px, py, 2, (k + 1) as nat) == blue
                + weight * buffer@[index + 2]);
            assert(weighted_sum(buffer@, weights@, w, h, axis, px, py, 3, (k + 1) as nat) == alpha
                + weight * buffer@[index + 3]);
        }
        red = accumulate(red, weight, buffer[index]);
        green = accumulate(green, weight, buffer[index + 1]);
        blue = accumulate(blue, weight, buffer[index + 2]);
        alpha = accumulate(alpha, weight, buffer[index + 3]);
        k = k + 1;
    }
    proof {
        lemma_partial_sums_fit(
            buffer@,
            weights@,
            width as int,
            height as int,
            axis,
            x as int,
            y as int,
            count as nat,
        );
    }
    (to_sample(red), to_sample(green), to_sample(blue), to_sample(alpha))
}

/// Convolves an RGBA image with a kernel along one axis.
///
/// Every sample of the result is the weighted mean, rounded to the nearest,
/// of the samples of the same channel along the axis, where the image is
/// continued beyond its borders by the pixels at the borders. The result has
/// the shape of the image.
pub fn convolve_1d(
    buffer: &[u8],
    kernel: &Kernel,
    width: usize,
    height: usize,
    axis: Axis,
) -> (output: Vec<u8>)
    requires
        buffer@.len() == width * height * 4,
    ensures
        output@ == convolve_of(buffer@, kernel@, width as int, height as int, axis),
        output@.len() == buffer@.len(),
{
    let weights: &Vec<u32> = kernel.weights();
    let length: usize = buffer.len();
    let ghost expected = convolve_of(buffer@, kernel@, width as int, height as int, axis);
    let mut output: Vec<u8> = Vec::with_capacity(length);
    let mut y: usize = 0;
    while y < height
        invariant
            y <= height,
            length == buffer@.len(),
            length == width * height * 4,
            weights@ == kernel@,
            is_normalized(weights@),
            expected == convolve_of(buffer@, kernel@, width as int, height as int, axis),
            output@.len() == cell(width as int, 0, y as int) * 4,
            output@.len() <= length,
            forall|i: int| 0 <= i < output@.len() ==> output@[i] == expected[i],
        decreases height - y,
    {
        let mut x: usize = 0;
        while x < width
            invariant
                y < height,
                x <= width,
                length == buffer@.len(),
                length == width * height * 4,
                weights@ == kernel@,
                is_normalized(weights@),
                expected == convolve_of(buffer@, kernel@, width as int, height as int, axis),
                output@.len() == cell(width as int, x as int, y as int) * 4,
                output@.len() <= length,
                forall|i: int| 0 <= i < output@.len() ==> output@[i] == expected[i],
            decreases width - x,
        {
            let pixel: (u8, u8, u8, u8) = convolve_pixel(
                buffer,
                weights,
                width,
                height,
                axis,
                x,
                y,
            );
            proof {
                lemma_cell_in_bounds(width as int, height as int, x as int, y as int);
                lemma_cell_coordinates(width as int, x as int, y as int);
                let first = cell(width as int, x as int, y as int) * 4;
                assert(first / 4 == cell(width as int, x as int, y as int));
                assert((first + 1) / 4 == cell(width as int, x as int, y as int));
                assert((first + 2) / 4 == cell(width as int, x as int, y as int));
                assert((first + 3) / 4 == cell(width as int, x as int, y as int));
                assert(expected[first + 0] == pixel.0);
                assert(expected[first + 1] == pixel.1);
                assert(expected[first + 2] == pixel.2);
                assert(expected[first + 3] == pixel.3);
            }
            output.push(pixel.0);
            output.push(pixel.1);
            output.push(pixel.2);
            output.push(pixel.3);
            x = x + 1;
        }
        proof {
            assert(cell(width as int, width as int, y as int) == cell(width as int, 0, y + 1))
                by (nonlinear_arith);
        }
        y = y + 1;
    }
    proof {
        assert(cell(width as int, 0, height as int) == width * height) by (nonlinear_arith);
        assert(output@ =~= expected);
    }
    output
}

/// Convolves an RGBA image with a kernel along its rows.
pub fn horizontal_pass(original: &[u8], kernel: &Kernel, width: usize, height: usize) -> (output:
    Vec<u8>)
    requires
        original@.len() == width * height * 4,
    ensures
        output@ == convolve_of(original@, kernel@, width as int, height as int, Axis::Horizontal),
        output@.len() == original@.len(),
{
    convolve_1d(original, kernel, width, height, Axis::Horizontal)
}

/// Convolves an RGBA image with a kernel along its columns.
pub fn vertical_pass(original: &[u8], kernel: &Kernel, width: usize, height: usize) -> (output: Vec<
    u8,
>)
    requires
        original@.len() == width * height * 4,
    ensures
        output@ == convolve_of(original@, kernel@, width as int, height as int, Axis::Vertical),
        output@.len() == original@.len(),
{
    convolve_1d(original, kernel, width, height, Axis::Vertical)
}

/// Blurs an RGBA image with a kernel: a pass along the rows, then one along
/// the columns of its result.
pub fn gaussian_blur(
    original_image: &[u8],
    width: usize,
    height: usize,
    kernel: &Kernel,
) -> (output_image: Vec<u8>)
    requires
        original_image@.len() == width * height * 4,
    ensures
        output_image@ == blur_of(original_image@, kernel@, width as int, height as int),
        output_image@.len() == original_image@.len(),
{
    let temp_image: Vec<u8> = horizontal_pass(original_image, kernel, width, height);
    vertical_pass(temp_image.as_slice(), kernel, width, height)
}

/// The blur factor counts the standard deviation of the blur in fifths of a
/// pixel.
pub const SIGMA_DIVISOR: u32 = 5;

/// A kernel reaches this many standard deviations from its centre.
pub const RADIUS_SIGMAS: u32 = 3;

/// The radius of the kernel for a blur factor: three standard deviations,
/// rounded up to whole pixels.
pub open spec fn radius_for(blur: int) -> int {
    (3 * blur + 4) / 5
}

/// The radius of the kernel for a blur factor. A blur factor of zero has no
/// kernel and is refused.
pub fn kernel_radius(blur: u32) -> (result: Result<usize, FilterError>)
    ensures
        result is Err <==> blur == 0,
        result matches Err(error) ==> error == FilterError::InvalidBlurFactor,
        result matches Ok(radius) ==> {
            &&& radius == radius_for(blur as int)
            &&& SIGMA_DIVISOR * (radius - 1) < RADIUS_SIGMAS * blur <= SIGMA_DIVISOR * radius
        },
{
    if blur == 0 {
        return Err(FilterError::InvalidBlurFactor);
    }
    let sigmas: u64 = RADIUS_SIGMAS as u64;
    let divisor: u64 = SIGMA_DIVISOR as u64;
    assert(sigmas * blur == 3 * blur) by (nonlinear_arith)
        requires
            sigmas == 3,
    ;
    let reach: u64 = sigmas * (blur as u64);
    assert(reach <= 3 * 0xffff_ffff);
    let radius: u64 = (reach + (divisor - 1)) / divisor;
    assert(radius == radius_for(blur as int) && 5 * (radius - 1) < 3 * blur <= 5 * radius)
        by (nonlinear_arith)
        requires
            radius == (reach + 4) / 5,
            reach == 3 * blur,
            0 < blur,
    ;
    assert(SIGMA_DIVISOR * radius == 5 * radius && SIGMA_DIVISOR * (radius - 1) == 5 * (radius
        - 1) && RADIUS_SIGMAS * blur == 3 * blur) by (nonlinear_arith)
        requires
            SIGMA_DIVISOR == 5,
            RADIUS_SIGMAS == 3,
    ;
    assert(radius <= 0xffff_ffff);
    Ok(radius as usize)
}

/// All pixels on a line along `axis` are the same.
pub open spec fn is_constant_along(image: Seq<u8>, width: int, height: int, axis: Axis) -> bool {
    match axis {
        Axis::Horizontal => forall|x: int, other: int, y: int, c: int|
            0 <= x < width && 0 <= other < width && 0 <= y < height && 0 <= c < 4
                ==> #[trigger] sample_at(image, width, x, y, c) == #[trigger] sample_at(
                image,
                width,
                other,
                y,
                c,
            ),
        Axis::Vertical => forall|x: int, y: int, other: int, c: int|
            0 <= x < width && 0 <= y < height && 0 <= other < height && 0 <= c < 4
                ==> #[trigger] sample_at(image, width, x, y, c) == #[trigger] sample_at(
                image,
                width,
                x,
                other,
                c,
            ),
    }
}

/// All pixels of the image are the same.
pub open spec fn is_uniform(image: Seq<u8>) -> bool {
    forall|i: int, j: int|
        0 <= i < image.len() && 0 <= j < image.len() && i % 4 == j % 4 ==> #[trigger] image[i]
            == #[trigger] image[j]
}

/// Beyond a border, a tap reads the pixel at that border; inside the image,
/// the pixel at its offset.
pub proof fn lemma_border_is_replicated(
    image: Seq<u8>,
    width: int,
    height: int,
    x: int,
    y: int,
    c: int,
    offset: int,
)
    requires
        0 <= x < width,
        0 <= y < height,
    ensures
        x + offset < 0 ==> tap(image, width, height, Axis::Horizontal, x, y, c, offset)
            == sample_at(image, width, 0, y, c),
        x + offset >= width ==> tap(image, width, height, Axis::Horizontal, x, y, c, offset)
            == sample_at(image, width, width - 1, y, c),
        0 <= x + offset < width ==> tap(image, width, height, Axis::Horizontal, x, y, c, offset)
            == sample_at(image, width, x + offset, y, c),
        y + offset < 0 ==> tap(image, width, height, Axis::Vertical, x, y, c, offset) == sample_at(
            image,
            width,
            x,
            0,
            c,
        ),
        y + offset >= height ==> tap(image, width, height, Axis::Vertical, x, y, c, offset)
            == sample_at(image, width, x, height - 1, c),
        0 <= y + offset < height ==> tap(image, width, height, Axis::Vertical, x, y, c, offset)
            == sample_at(image, width, x, y + offset, c),
{
}

/// All samples of channel `c` on the line along `axis` through the pixel at
/// column `x`, row `y` lie between `low` and `high`.
pub open spec fn is_line_within(
    image: Seq<u8>,
    width: int,
    height: int,
    axis: Axis,
    x: int,
    y: int,
    c: int,
    low: int,
    high: int,
) -> bool {
    match axis {
        Axis::Horizontal => forall|other: int|
            0 <= other < width ==> low <= #[trigger] sample_at(image, width, other, y, c) <= high,
        Axis::Vertical => forall|other: int|
            0 <= other < height ==> low <= #[trigger] sample_at(image, width, x, other, c) <= high,
    }
}

/// On a line of samples between `low` and `high`, a weighted sum lies between
/// `low` and `high` times the weights summed.
proof fn lemma_weighted_sum_within_line(
    image: Seq<u8>,
    weights: Seq<u32>,
    width: int,
    height: int,
    axis: Axis,
    x: int,
    y: int,
    c: int,
    low: int,
    high: int,
    n: nat,
)
    requires
        0 <= x < width,
        0 <= y < height,
        is_line_within(image, width, height, axis, x, y, c, low, high),
    ensures
        low * prefix_total(weights, n) <= weighted_sum(
            image,
            weights,
            width,
            height,
            axis,
            x,
            y,
            c,
            n,
        ) <= high * prefix_total(weights, n),
    decreases n,
{
    if n == 0 {
        assert(low * 0 == 0 && high * 0 == 0) by (nonlinear_arith);
    } else {
        lemma_weighted_sum_within_line(
            image,
            weights,
            width,
            height,
            axis,
            x,
            y,
            c,
            low,
            high,
            (n - 1) as nat,
        );
        let offset = n - 1 - radius_of(weights);
        let weight = weights[n - 1] as int;
        let before = prefix_total(weights, (n - 1) as nat);
        let sample = tap(image, width, height, axis, x, y, c, offset);
        match axis {
            Axis::Horizontal => {
                let source = clamp_coordinate(x + offset, width);
                assert(sample == sample_at(image, width, source, y, c));
            },
            Axis::Vertical => {
                let source = clamp_coordinate(y + offset, height);
                assert(sample == sample_at(image, width, x, source, c));
            },
        }
        assert(low <= sample <= high);
        assert(low * (before + weight) == low * before + low * weight) by (nonlinear_arith);
        assert(high * (before + weight) == high * before + high * weight) by (nonlinear_arith);
        assert(low * weight <= weight * sample <= high * weight) by (nonlinear_arith)
            requires
                0 <= weight,
                low <= sample <= high,
        ;
    }
}

/// A sample of a convolution lies between the least and the greatest sample
/// of its channel on the line it is taken along: no border darkens or
/// brightens the image, since what a tap reads beyond a border is a sample
/// of the same line.
pub proof fn lemma_convolved_sample_within_line(
    image: Seq<u8>,
    weights: Seq<u32>,
    width: int,
    height: int,
    axis: Axis,
    x: int,
    y: int,
    c: int,
    low: int,
    high: int,
)
    requires
        0 <= x < width,
        0 <= y < height,
        is_normalized(weights),
        is_line_within(image, width, height, axis, x, y, c, low, high),
    ensures
        low <= convolved_sample(image, weights, width, height, axis, x, y, c) <= high,
{
    lemma_weighted_sum_within_line(
        image,
        weights,
        width,
        height,
        axis,
        x,
        y,
        c,
        low,
        high,
        weights.len(),
    );
    let sum = weighted_sum(image, weights, width, height, axis, x, y, c, weights.len());
    assert(low <= round_fixed(sum) <= high) by (nonlinear_arith)
        requires
            low * KERNEL_ONE <= sum <= high * KERNEL_ONE,
            KERNEL_ONE == 16_777_216,
            round_fixed(sum) == (sum + 8_388_608) / 16_777_216,
    ;
}

/// A convolution along an axis leaves an image unchanged whose pixels are
/// the same all along each line of that axis: what a tap reads beyond a
/// border is the pixel at the border, so every weighted mean is taken of
/// equal samples.
pub proof fn lemma_pass_keeps_constant_lines(
    image: Seq<u8>,
    weights: Seq<u32>,
    width: int,
    height: int,
    axis: Axis,
)
    requires
        0 <= width,
        0 <= height,
        image.len() == width * height * 4,
        is_normalized(weights),
        is_constant_along(image, width, height, axis),
    ensures
        convolve_of(image, weights, width, height, axis) == image,
{
    let output = convolve_of(image, weights, width, height, axis);
    assert forall|i: int| 0 <= i < image.len() implies output[i] == image[i] by {
        let p = i / 4;
        let c = i % 4;
        lemma_position_coordinates(width, height, p);
        let x = column_of(width, p);
        let y = row_of(width, p);
        assert(sample_index(width, x, y, c) == i);
        let sample = image[i] as int;
        assert(sample_at(image, width, x, y, c) == sample);
        lemma_convolved_sample_within_line(
            image,
            weights,
            width,
            height,
            axis,
            x,
            y,
            c,
            sample,
            sample,
        );
    }
    assert(output =~= image);
}

/// Blurring an image of one colour gives back the same image.
pub proof fn lemma_blur_keeps_uniform(image: Seq<u8>, weights: Seq<u32>, width: int, height: int)
    requires
        0 <= width,
        0 <= height,
        image.len() == width * height * 4,
        is_normalized(weights),
        is_uniform(image),
    ensures
        blur_of(image, weights, width, height) == image,
{
    assert forall|x: int, other: int, y: int, c: int|
        0 <= x < width && 0 <= other < width && 0 <= y < height && 0 <= c < 4
        implies #[trigger] sample_at(image, width, x, y, c) == #[trigger] sample_at(
        image,
        width,
        other,
        y,
        c,
    ) by {
        lemma_cell_in_bounds(width, height, x, y);
        lemma_cell_in_bounds(width, height, other, y);
    }
    assert forall|x: int, y: int, other: int, c: int|
        0 <= x < width && 0 <= y < height && 0 <= other < height && 0 <= c < 4
        implies #[trigger] sample_at(image, width, x, y, c) == #[trigger] sample_at(
        image,
        width,
        x,
        other,
        c,
    ) by {
        lemma_cell_in_bounds(width, height, x, y);
        lemma_cell_in_bounds(width, height, x, other);
    }
    lemma_pass_keeps_constant_lines(image, weights, width, height, Axis::Horizontal);
    lemma_pass_keeps_constant_lines(image, weights, width, height, Axis::Vertical);
}

} // verus!
