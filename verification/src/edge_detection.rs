//! Sobel edge detection on the luma of an RGBA buffer.

use crate::shape::{cell, column_of, lemma_cell_coordinates, lemma_cell_in_bounds, row_of};
use crate::{FilterError, NUM_CHANNELS};
use vstd::prelude::*;

verus! {

/// Largest value of a sample.
pub const SAMPLE_MAX: u8 = 255;

/// Weight of the red channel in the luma of a pixel, in thousandths.
pub const LUMA_RED: u32 = 299;

/// Weight of the green channel in the luma of a pixel, in thousandths.
pub const LUMA_GREEN: u32 = 587;

/// Weight of the blue channel in the luma of a pixel, in thousandths.
pub const LUMA_BLUE: u32 = 114;

/// Sum of the three luma weights.
pub const LUMA_SCALE: u32 = 1000;

/// Luma of a pixel: the weighted mean of its colour channels, rounded down.
/// The alpha channel plays no part.
pub open spec fn luma(red: u8, green: u8, blue: u8) -> int {
    (299 * red + 587 * green + 114 * blue) / 1000
}

/// The single-channel luma buffer of an interleaved four-channel image.
pub open spec fn greyscale_of(image: Seq<u8>) -> Seq<u8> {
    Seq::new(
        (image.len() / 4) as nat,
        |p: int| luma(image[4 * p], image[4 * p + 1], image[4 * p + 2]) as u8,
    )
}

/// The four-channel rendering of a single-channel buffer: each sample fills
/// red, green and blue of its pixel, and alpha is opaque.
pub open spec fn expand_channels(input: Seq<u8>) -> Seq<u8> {
    Seq::new(
        input.len() * 4,
        |i: int|
            if i % 4 == 3 {
                SAMPLE_MAX
            } else {
                input[i / 4]
            },
    )
}

/// Reduces an RGBA image to its luma, one sample per pixel.
pub fn convert_to_greyscale(original_image: &[u8], width: usize, height: usize) -> (greyscale:
    Vec<u8>)
    requires
        original_image@.len() == width * height * 4,
    ensures
        greyscale@ == greyscale_of(original_image@),
        greyscale@.len() == width * height,
{
    let length: usize = original_image.len();
    let pixels: usize = length / NUM_CHANNELS;
    let mut greyscale: Vec<u8> = Vec::with_capacity(pixels);
    let mut p: usize = 0;
    while p < pixels
        invariant
            p <= pixels,
            pixels * 4 == length,
            length == original_image@.len(),
            greyscale@.len() == p,
            forall|q: int| 0 <= q < p ==> greyscale@[q] == greyscale_of(original_image@)[q],
        decreases pixels - p,
    {
        let first: usize = p * NUM_CHANNELS;
        let red: u32 = original_image[first] as u32;
        let green: u32 = original_image[first + 1] as u32;
        let blue: u32 = original_image[first + 2] as u32;
        let grey: u32 = (red * LUMA_RED + green * LUMA_GREEN + blue * LUMA_BLUE) / LUMA_SCALE;
        greyscale.push(grey as u8);
        p = p + 1;
    }
    assert(greyscale@ =~= greyscale_of(original_image@));
    greyscale
}

/// Expands a single-channel image to RGBA: the sample goes to red, green and
/// blue, and alpha is set to 255.
pub fn convert_to_num_channels(input: &[u8], width: usize, height: usize) -> (output: Vec<u8>)
    requires
        input@.len() == width * height,
        width * height * 4 <= usize::MAX,
    ensures
        output@ == expand_channels(input@),
        output@.len() == width * height * 4,
{
    let pixels: usize = input.len();
    let mut output: Vec<u8> = Vec::with_capacity(pixels * NUM_CHANNELS);
    let mut p: usize = 0;
    while p < pixels
        invariant
            p <= pixels,
            pixels == input@.len(),
            pixels * 4 <= usize::MAX,
            output@.len() == p * 4,
            forall|i: int| 0 <= i < p * 4 ==> output@[i] == expand_channels(input@)[i],
        decreases pixels - p,
    {
        let sample: u8 = input[p];
        output.push(sample);
        output.push(sample);
        output.push(sample);
        output.push(SAMPLE_MAX);
        p = p + 1;
    }
    assert(output@ =~= expand_channels(input@));
    output
}

/// `r` is the integer part of the square root of `n`.
pub open spec fn is_floor_sqrt(n: int, r: int) -> bool {
    0 <= r && r * r <= n < (r + 1) * (r + 1)
}

/// Integer part of the square root of `n`, for `n >= 0`.
pub open spec fn floor_sqrt(n: int) -> int {
    choose|r: int| is_floor_sqrt(n, r)
}

/// The square root of a sum of squares, cut off at the largest sample value.
pub open spec fn saturated_root(n: int) -> int {
    if floor_sqrt(n) > SAMPLE_MAX as int {
        SAMPLE_MAX as int
    } else {
        floor_sqrt(n)
    }
}

/// Squaring is strictly monotone on the naturals.
proof fn lemma_square_strictly_monotone(a: int, b: int)
    requires
        0 <= a < b,
    ensures
        a * a < b * b,
        (a + 1) * (a + 1) <= b * b,
{
    assert((a + 1) * (a + 1) <= b * b) by (nonlinear_arith)
        requires
            0 <= a,
            a + 1 <= b,
    ;
    assert(a * a < (a + 1) * (a + 1)) by (nonlinear_arith)
        requires
            0 <= a,
    ;
}

/// The integer square root is unique: whatever meets its definition is it.
pub proof fn lemma_floor_sqrt_unique(n: int, r: int)
    requires
        is_floor_sqrt(n, r),
    ensures
        floor_sqrt(n) == r,
{
    let s = floor_sqrt(n);
    assert(is_floor_sqrt(n, s));
    if s < r {
        lemma_square_strictly_monotone(s, r);
    } else if r < s {
        lemma_square_strictly_monotone(r, s);
    }
}

/// Every natural number has an integer square root, and it is no larger
/// than the number itself.
pub proof fn lemma_floor_sqrt_exists(n: int)
    requires
        0 <= n,
    ensures
        is_floor_sqrt(n, floor_sqrt(n)),
        floor_sqrt(n) <= n,
    decreases n,
{
    if n == 0 {
        assert(is_floor_sqrt(0, 0));
    } else {
        lemma_floor_sqrt_exists(n - 1);
        let p = floor_sqrt(n - 1);
        if (p + 1) * (p + 1) <= n {
            assert((p + 2) * (p + 2) > n) by (nonlinear_arith)
                requires
                    0 <= p,
                    n - 1 < (p + 1) * (p + 1),
            ;
            assert(is_floor_sqrt(n, p + 1));
            assert(p + 1 <= n) by (nonlinear_arith)
                requires
                    0 <= p,
                    (p + 1) * (p + 1) <= n,
            ;
        } else {
            assert(p * p <= n);
            assert(is_floor_sqrt(n, p));
        }
    }
    let r = floor_sqrt(n);
    assert(r <= n) by {
        if r > n {
            assert(r * r > n) by (nonlinear_arith)
                requires
                    r > n,
                    n >= 0,
            ;
        }
    }
}

/// The widths that the search for a square root narrows through.
spec fn is_power_of_two_step(span: int) -> bool {
    span == 1 || span == 2 || span == 4 || span == 8 || span == 16 || span == 32 || span == 64
        || span == 128 || span == 256
}

/// Integer part of the square root of `n`, cut off at 255.
pub fn saturating_sqrt(n: u64) -> (m: u8)
    ensures
        m as int == saturated_root(n as int),
{
    if n >= 65025 {
        proof {
            lemma_floor_sqrt_exists(n as int);
            let r = floor_sqrt(n as int);
            if r < 255 {
                lemma_square_strictly_monotone(r, 255);
            }
        }
        return 255;
    }
    let mut root: u64 = 0;
    let mut span: u64 = 256;
    while span > 1
        invariant
            is_power_of_two_step(span as int),
            root + span <= 256,
            root * root <= n,
            n < (root + span) * (root + span),
        decreases span,
    {
        let half: u64 = span / 2;
        let candidate: u64 = root + half;
        assert(candidate * candidate <= 65536) by (nonlinear_arith)
            requires
                0 <= candidate <= 256,
        ;
        if candidate * candidate <= n {
            assert(candidate + half == root + span);
            root = candidate;
        }
        span = half;
    }
    proof {
        assert(is_floor_sqrt(n as int, root as int));
        lemma_floor_sqrt_unique(n as int, root as int);
    }
    root as u8
}

/// The 3x3 kernel of the horizontal gradient, row by row.
pub open spec fn sobel_x_weights() -> Seq<Seq<i32>> {
    seq![seq![-1i32, 0i32, 1i32], seq![-2i32, 0i32, 2i32], seq![-1i32, 0i32, 1i32]]
}

/// The 3x3 kernel of the vertical gradient, row by row.
pub open spec fn sobel_y_weights() -> Seq<Seq<i32>> {
    seq![seq![-1i32, -2i32, -1i32], seq![0i32, 0i32, 0i32], seq![1i32, 2i32, 1i32]]
}

/// A 3x3 kernel whose weights are small enough for a gradient to stay far
/// inside the range of `i32`.
pub open spec fn is_small_3x3(kernel: Seq<Seq<i32>>) -> bool {
    &&& kernel.len() == 3
    &&& forall|row: int| 0 <= row < 3 ==> (#[trigger] kernel[row]).len() == 3
    &&& forall|row: int, column: int|
        0 <= row < 3 && 0 <= column < 3 ==> -2 <= #[trigger] kernel[row][column] <= 2
}

/// Produces the kernel of the gradient in the x direction.
pub fn sobel_kernel_x() -> (kernel: Vec<Vec<i32>>)
    ensures
        kernel.deep_view() == sobel_x_weights(),
{
    let kernel: Vec<Vec<i32>> = vec![vec![-1, 0, 1], vec![-2, 0, 2], vec![-1, 0, 1]];
    proof {
        assert(kernel@[0].deep_view() =~= sobel_x_weights()[0]);
        assert(kernel@[1].deep_view() =~= sobel_x_weights()[1]);
        assert(kernel@[2].deep_view() =~= sobel_x_weights()[2]);
        assert(kernel.deep_view() =~= sobel_x_weights());
    }
    kernel
}

/// Produces the kernel of the gradient in the y direction.
pub fn sobel_kernel_y() -> (kernel: Vec<Vec<i32>>)
    ensures
        kernel.deep_view() == sobel_y_weights(),
{
    let kernel: Vec<Vec<i32>> = vec![vec![-1, -2, -1], vec![0, 0, 0], vec![1, 2, 1]];
    proof {
        assert(kernel@[0].deep_view() =~= sobel_y_weights()[0]);
        assert(kernel@[1].deep_view() =~= sobel_y_weights()[1]);
        assert(kernel@[2].deep_view() =~= sobel_y_weights()[2]);
        assert(kernel.deep_view() =~= sobel_y_weights());
    }
    kernel
}

/// The luma at column `x`, row `y` of a single-channel image.
pub open spec fn grey_at(grey: Seq<u8>, width: int, x: int, y: int) -> int {
    grey[cell(width, x, y)] as int
}

/// The 3x3 neighbourhood of the pixel at column `x`, row `y`, weighted by
/// `kernel` and summed.
pub open spec fn convolve_3x3(grey: Seq<u8>, width: int, x: int, y: int, kernel: Seq<Seq<i32>>)
    -> int {
    kernel[0][0] * grey_at(grey, width, x - 1, y - 1)
        + kernel[0][1] * grey_at(grey, width, x, y - 1)
        + kernel[0][2] * grey_at(grey, width, x + 1, y - 1)
        + kernel[1][0] * grey_at(grey, width, x - 1, y)
        + kernel[1][1] * grey_at(grey, width, x, y)
        + kernel[1][2] * grey_at(grey, width, x + 1, y)
        + kernel[2][0] * grey_at(grey, width, x - 1, y + 1)
        + kernel[2][1] * grey_at(grey, width, x, y + 1)
        + kernel[2][2] * grey_at(grey, width, x + 1, y + 1)
}

/// The gradient magnitude at column `x`, row `y` of a single-channel image:
/// the length of the vector of the two Sobel gradients, rounded down and cut
/// off at 255.
pub open spec fn gradient_magnitude(grey: Seq<u8>, width: int, x: int, y: int) -> int {
    let g_x = convolve_3x3(grey, width, x, y, sobel_x_weights());
    let g_y = convolve_3x3(grey, width, x, y, sobel_y_weights());
    saturated_root(g_x * g_x + g_y * g_y)
}

/// The gradient magnitudes of all pixels that have a full neighbourhood, as
/// an image that is one pixel smaller on each side.
pub open spec fn gradient_magnitudes(grey: Seq<u8>, width: int, height: int) -> Seq<u8> {
    Seq::new(
        ((width - 2) * (height - 2)) as nat,
        |p: int|
            gradient_magnitude(
                grey,
                width,
                column_of(width - 2, p) + 1,
                row_of(width - 2, p) + 1,
            ) as u8,
    )
}

/// The edge image of an RGBA image: the gradient magnitudes of its luma,
/// rendered in four channels.
pub open spec fn sobel_of(image: Seq<u8>, width: int, height: int) -> Seq<u8> {
    expand_channels(gradient_magnitudes(greyscale_of(image), width, height))
}

/// Row `row` of the nested view of a 3x3 kernel holds the weights of the
/// kernel's own row.
proof fn lemma_rows_of_weights(kernel: &Vec<Vec<i32>>, row: int)
    requires
        is_small_3x3(kernel.deep_view()),
        0 <= row < 3,
    ensures
        kernel@.len() == 3,
        kernel@[row]@.len() == 3,
        kernel@[row]@[0] == kernel.deep_view()[row][0],
        kernel@[row]@[1] == kernel.deep_view()[row][1],
        kernel@[row]@[2] == kernel.deep_view()[row][2],
        -2 <= kernel@[row]@[0] <= 2,
        -2 <= kernel@[row]@[1] <= 2,
        -2 <= kernel@[row]@[2] <= 2,
{
    let weights = kernel.deep_view();
    assert(weights.len() == kernel@.len());
    assert(weights[row] == kernel@[row].deep_view());
    assert(weights[row].len() == kernel@[row]@.len());
    assert(weights[row][0] == kernel@[row]@[0]);
    assert(weights[row][1] == kernel@[row]@[1]);
    assert(weights[row][2] == kernel@[row]@[2]);
}

/// One term of a 3x3 convolution.
fn weigh(weight: i32, sample: u8) -> (term: i32)
    requires
        -2 <= weight <= 2,
    ensures
        term == weight * sample,
        -510 <= term <= 510,
{
    assert(-510 <= weight * sample <= 510) by (nonlinear_arith)
        requires
            -2 <= weight <= 2,
            0 <= sample <= 255,
    ;
    weight * (sample as i32)
}

/// Convolves the neighbourhood of the pixel at column `x`, row `y` with a
/// 3x3 kernel.
fn convolve(grey: &Vec<u8>, width: usize, height: usize, x: usize, y: usize, kernel: &Vec<Vec<i32>>)
    -> (gradient: i32)
    requires
        grey@.len() == width * height,
        1 <= x,
        x + 1 < width,
        1 <= y,
        y + 1 < height,
        is_small_3x3(kernel.deep_view()),
    ensures
        gradient == convolve_3x3(grey@, width as int, x as int, y as int, kernel.deep_view()),
        -4590 <= gradient <= 4590,
{
    proof {
        lemma_cell_in_bounds(width as int, height as int, x - 1, y - 1);
        lemma_cell_in_bounds(width as int, height as int, x + 1, y - 1);
        lemma_cell_in_bounds(width as int, height as int, x - 1, y as int);
        lemma_cell_in_bounds(width as int, height as int, x + 1, y as int);
        lemma_cell_in_bounds(width as int, height as int, x - 1, y + 1);
        lemma_cell_in_bounds(width as int, height as int, x + 1, y + 1);
        lemma_rows_of_weights(kernel, 0);
        lemma_rows_of_weights(kernel, 1);
        lemma_rows_of_weights(kernel, 2);
    }
    let length: usize = grey.len();
    assert(width * height == length);
    let above: usize = (y - 1) * width;
    let level: usize = y * width;
    let below: usize = (y + 1) * width;
    let top: &Vec<i32> = &kernel[0];
    let middle: &Vec<i32> = &kernel[1];
    let bottom: &Vec<i32> = &kernel[2];
    weigh(top[0], grey[above + (x - 1)]) + weigh(top[1], grey[above + x]) + weigh(
        top[2],
        grey[above + (x + 1)],
    ) + weigh(middle[0], grey[level + (x - 1)]) + weigh(middle[1], grey[level + x]) + weigh(
        middle[2],
        grey[level + (x + 1)],
    ) + weigh(bottom[0], grey[below + (x - 1)]) + weigh(bottom[1], grey[below + x]) + weigh(
        bottom[2],
        grey[below + (x + 1)],
    )
}

/// Both Sobel kernels are 3x3 kernels of small weights.
proof fn lemma_sobel_weights_are_small()
    ensures
        is_small_3x3(sobel_x_weights()),
        is_small_3x3(sobel_y_weights()),
{
    let k_x = sobel_x_weights();
    let k_y = sobel_y_weights();
    assert(k_x[0].len() == 3 && k_x[1].len() == 3 && k_x[2].len() == 3);
    assert(k_y[0].len() == 3 && k_y[1].len() == 3 && k_y[2].len() == 3);
    assert forall|row: int, column: int| 0 <= row < 3 && 0 <= column < 3 implies -2
        <= #[trigger] k_x[row][column] <= 2 by {
        assert(k_x[0][0] == -1 && k_x[0][1] == 0 && k_x[0][2] == 1);
        assert(k_x[1][0] == -2 && k_x[1][1] == 0 && k_x[1][2] == 2);
        assert(k_x[2][0] == -1 && k_x[2][1] == 0 && k_x[2][2] == 1);
    }
    assert forall|row: int, column: int| 0 <= row < 3 && 0 <= column < 3 implies -2
        <= #[trigger] k_y[row][column] <= 2 by {
        assert(k_y[0][0] == -1 && k_y[0][1] == -2 && k_y[0][2] == -1);
        assert(k_y[1][0] == 0 && k_y[1][1] == 0 && k_y[1][2] == 0);
        assert(k_y[2][0] == 1 && k_y[2][1] == 2 && k_y[2][2] == 1);
    }
}

/// Runs Sobel edge detection with a 3x3 kernel on an RGBA image.
///
/// The image must be wider and higher than two pixels; a smaller one is
/// refused. The result is the image of the gradient magnitudes of all pixels
/// with a full neighbourhood, one pixel smaller on each side, in RGBA with
/// the magnitude in the three colour channels and an opaque alpha.
pub fn sobel_edge_detect(original_image: &[u8], width: usize, height: usize) -> (result: Result<
    Vec<u8>,
    FilterError,
>)
    requires
        original_image@.len() == width * height * 4,
    ensures
        result is Err <==> width <= 2 || height <= 2,
        result matches Err(error) ==> error == FilterError::UndersizedInput,
        result matches Ok(output) ==> {
            &&& output@ == sobel_of(original_image@, width as int, height as int)
            &&& output@.len() == (width - 2) * (height - 2) * 4
        },
{
    if width <= 2 || height <= 2 {
        return Err(FilterError::UndersizedInput);
    }
    let sobel_x: Vec<Vec<i32>> = sobel_kernel_x();
    let sobel_y: Vec<Vec<i32>> = sobel_kernel_y();
    let greyscale: Vec<u8> = convert_to_greyscale(original_image, width, height);
    let length: usize = original_image.len();
    let inner_width: usize = width - 2;
    let inner_height: usize = height - 2;
    proof {
        lemma_sobel_weights_are_small();
        assert(width * height * 4 == length);
        assert(inner_width * inner_height <= width * height) by (nonlinear_arith)
            requires
                inner_width == width - 2,
                inner_height == height - 2,
                width > 2,
                height > 2,
        ;
    }
    let ghost magnitudes = gradient_magnitudes(greyscale@, width as int, height as int);
    proof {
        assert(0 <= inner_width * inner_height) by (nonlinear_arith);
    }
    let mut output: Vec<u8> = Vec::new();
    let mut y: usize = 1;
    while y < height - 1
        invariant
            2 < width,
            2 < height,
            1 <= y <= height - 1,
            inner_width == width - 2,
            inner_height == height - 2,
            greyscale@.len() == width * height,
            sobel_x.deep_view() == sobel_x_weights(),
            sobel_y.deep_view() == sobel_y_weights(),
            is_small_3x3(sobel_x_weights()),
            is_small_3x3(sobel_y_weights()),
            magnitudes == gradient_magnitudes(greyscale@, width as int, height as int),
            magnitudes.len() == inner_width * inner_height,
            output@.len() <= magnitudes.len(),
            output@.len() == cell(inner_width as int, 0, y - 1),
            forall|p: int| 0 <= p < output@.len() ==> output@[p] == magnitudes[p],
        decreases height - y,
    {
        let mut x: usize = 1;
        while x < width - 1
            invariant
                2 < width,
                2 < height,
                1 <= y < height - 1,
                1 <= x <= width - 1,
                inner_width == width - 2,
                inner_height == height - 2,
                greyscale@.len() == width * height,
                sobel_x.deep_view() == sobel_x_weights(),
                sobel_y.deep_view() == sobel_y_weights(),
                is_small_3x3(sobel_x_weights()),
                is_small_3x3(sobel_y_weights()),
                magnitudes == gradient_magnitudes(greyscale@, width as int, height as int),
                magnitudes.len() == inner_width * inner_height,
                output@.len() <= magnitudes.len(),
                output@.len() == cell(inner_width as int, x - 1, y - 1),
                forall|p: int| 0 <= p < output@.len() ==> output@[p] == magnitudes[p],
            decreases width - x,
        {
            let g_x: i32 = convolve(&greyscale, width, height, x, y, &sobel_x);
            let g_y: i32 = convolve(&greyscale, width, height, x, y, &sobel_y);
            assert(0 <= g_x * g_x <= 21068100) by (nonlinear_arith)
                requires
                    -4590 <= g_x <= 4590,
            ;
            assert(0 <= g_y * g_y <= 21068100) by (nonlinear_arith)
                requires
                    -4590 <= g_y <= 4590,
            ;
            let magnitude: u8 = saturating_sqrt((g_x * g_x + g_y * g_y) as u64);
            proof {
                let p = cell(inner_width as int, x - 1, y - 1);
                lemma_cell_in_bounds(inner_width as int, inner_height as int, x - 1, y - 1);
                lemma_cell_coordinates(inner_width as int, x - 1, y - 1);
                assert(magnitudes[p] == gradient_magnitude(
                    greyscale@,
                    width as int,
                    x as int,
                    y as int,
                ) as u8);
            }
            output.push(magnitude);
            x = x + 1;
        }
        proof {
            assert(cell(inner_width as int, inner_width as int, y - 1) == cell(
                inner_width as int,
                0,
                y as int,
            )) by (nonlinear_arith);
        }
        y = y + 1;
    }
    proof {
        assert(cell(inner_width as int, 0, inner_height as int) == inner_width * inner_height)
            by (nonlinear_arith);
        assert(output@ =~= magnitudes);
    }
    let converted: Vec<u8> = convert_to_num_channels(&output, inner_width, inner_height);
    Ok(converted)
}

} // verus!
