use pixel_filters::blur;
use pixel_filters::blurring::{
    convolve_1d, gaussian_blur, horizontal_pass, kernel_radius, vertical_pass, Axis,
};
use pixel_filters::kernel::{Kernel, KERNEL_ONE};
use pixel_filters::FilterError;

fn kernel_of(raw: &[u32]) -> Kernel {
    match Kernel::normalized(raw) {
        Ok(kernel) => kernel,
        Err(error) => panic!("no kernel: {:?}", error),
    }
}

fn bell_weights(radius: usize, sigma: f64) -> Vec<u32> {
    let mut raw: Vec<u32> = Vec::new();
    for i in 0..(2 * radius + 1) {
        let position: f64 = i as f64 - radius as f64;
        let weight: f64 = (-(position * position) / (2.0 * sigma * sigma)).exp();
        raw.push((weight * 1_073_741_824.0).round() as u32);
    }
    raw
}

fn assert_close(kernel: &Kernel, expected: &[f64]) {
    let weights: &Vec<u32> = kernel.weights();
    assert_eq!(weights.len(), expected.len());
    for i in 0..expected.len() {
        let weight: f64 = weights[i] as f64 / KERNEL_ONE as f64;
        assert!(
            (weight - expected[i]).abs() < 1e-6,
            "weight {} is {} and not {}",
            i,
            weight,
            expected[i]
        );
    }
}

#[test]
fn kernel_weights_are_shares_of_the_sum() {
    let kernel: Kernel = kernel_of(&[1, 2, 1]);
    assert_eq!(kernel.weights(), &vec![4_194_304, 8_388_608, 4_194_304]);
    assert_eq!(kernel.radius(), 1);
    let kernel: Kernel = kernel_of(&[1, 4, 6, 4, 1]);
    assert_eq!(
        kernel.weights(),
        &vec![1_048_576, 4_194_304, 6_291_456, 4_194_304, 1_048_576]
    );
    assert_eq!(kernel.radius(), 2);
}

#[test]
fn kernel_centre_takes_what_rounding_leaves() {
    let kernel: Kernel = kernel_of(&[1, 1, 1]);
    assert_eq!(kernel.weights(), &vec![5_592_405, 5_592_406, 5_592_405]);
    let kernel: Kernel = kernel_of(&[3, 0, 1, 0, 3]);
    assert_eq!(
        kernel.weights(),
        &vec![7_190_235, 0, 2_396_746, 0, 7_190_235]
    );
}

#[test]
fn kernel_of_one_weight_is_the_identity() {
    let kernel: Kernel = kernel_of(&[9]);
    assert_eq!(kernel.weights(), &vec![KERNEL_ONE]);
    assert_eq!(kernel.radius(), 0);
    let kernel: Kernel = kernel_of(&[0, 5, 0]);
    assert_eq!(kernel.weights(), &vec![0, KERNEL_ONE, 0]);
}

#[test]
fn kernel_adds_up_to_one_and_stays_symmetric() {
    let raws: Vec<Vec<u32>> = vec![
        vec![1],
        vec![1, 1, 1],
        vec![7, 11, 7],
        vec![u32::MAX, u32::MAX, u32::MAX],
        bell_weights(3, 2.0),
        bell_weights(60, 20.0),
        bell_weights(1, 0.2),
    ];
    for raw in raws {
        let kernel: Kernel = kernel_of(&raw);
        let weights: &Vec<u32> = kernel.weights();
        let sum: u64 = weights.iter().map(|weight| *weight as u64).sum();
        assert_eq!(sum, KERNEL_ONE as u64);
        assert_eq!(weights.len(), raw.len());
        for i in 0..weights.len() {
            assert_eq!(weights[i], weights[weights.len() - 1 - i]);
        }
    }
}

#[test]
fn kernel_of_skewed_weights_adds_up_to_one() {
    let kernel: Kernel = kernel_of(&[1, 1, 5]);
    let weights: &Vec<u32> = kernel.weights();
    // shares of 1/7 and 5/7, rounded down; the centre takes the rest
    assert_eq!(weights, &vec![2_396_745, 2_396_746, 11_983_725]);
}

#[test]
fn kernel_refuses_even_count() {
    assert_eq!(
        Kernel::normalized(&[]).err(),
        Some(FilterError::EvenKernelLength)
    );
    assert_eq!(
        Kernel::normalized(&[1, 2]).err(),
        Some(FilterError::EvenKernelLength)
    );
    assert_eq!(
        Kernel::normalized(&[0, 0, 0, 0]).err(),
        Some(FilterError::EvenKernelLength)
    );
}

#[test]
fn kernel_refuses_zero_weights() {
    assert_eq!(
        Kernel::normalized(&[0]).err(),
        Some(FilterError::ZeroKernelWeight)
    );
    assert_eq!(
        Kernel::normalized(&[0, 0, 0]).err(),
        Some(FilterError::ZeroKernelWeight)
    );
}

#[test]
fn kernel_of_bell_weights_is_the_bell_curve() {
    assert_close(
        &kernel_of(&bell_weights(3, 2.0)),
        &[
            0.07015932, 0.13107488, 0.19071281, 0.21610592, 0.19071281, 0.13107488, 0.07015932,
        ],
    );
    assert_close(
        &kernel_of(&bell_weights(3, 1.0)),
        &[
            0.004433048,
            0.05400558,
            0.24203622,
            0.39905027,
            0.24203622,
            0.05400558,
            0.004433048,
        ],
    );
    assert_close(
        &kernel_of(&bell_weights(4, 2.0)),
        &[
            0.027630549,
            0.06628224,
            0.12383153,
            0.18017381,
            0.20416369,
            0.18017381,
            0.12383153,
            0.06628224,
            0.027630549,
        ],
    );
    assert_close(
        &kernel_of(&bell_weights(1, 1.0)),
        &[0.27406862, 0.45186275, 0.27406862],
    );
}

#[test]
fn kernel_radius_is_three_sigmas_rounded_up() {
    assert_eq!(kernel_radius(1), Ok(1));
    assert_eq!(kernel_radius(2), Ok(2));
    assert_eq!(kernel_radius(3), Ok(2));
    assert_eq!(kernel_radius(4), Ok(3));
    assert_eq!(kernel_radius(5), Ok(3));
    assert_eq!(kernel_radius(6), Ok(4));
    assert_eq!(kernel_radius(10), Ok(6));
    assert_eq!(kernel_radius(99), Ok(60));
    assert_eq!(kernel_radius(100), Ok(60));
    assert_eq!(kernel_radius(u32::MAX), Ok(2_576_980_377));
}

#[test]
fn kernel_radius_refuses_zero_blur() {
    assert_eq!(kernel_radius(0), Err(FilterError::InvalidBlurFactor));
}

#[test]
fn horizontal_pass_continues_image_with_border_pixels() {
    let kernel: Kernel = kernel_of(&[1, 2, 1]);
    let image: Vec<u8> = vec![200, 200, 200, 255, 100, 100, 100, 255, 100, 100, 100, 255];
    // left pixel: its own value holds for the neighbour beyond the border
    assert_eq!(
        horizontal_pass(&image, &kernel, 3, 1),
        vec![175, 175, 175, 255, 125, 125, 125, 255, 100, 100, 100, 255]
    );
    // a single row has no other rows to mix with
    assert_eq!(vertical_pass(&image, &kernel, 3, 1), image);
}

#[test]
fn vertical_pass_continues_image_with_border_pixels() {
    let kernel: Kernel = kernel_of(&[1, 2, 1]);
    let image: Vec<u8> = vec![200, 200, 200, 255, 100, 100, 100, 255, 100, 100, 100, 255];
    assert_eq!(
        vertical_pass(&image, &kernel, 1, 3),
        vec![175, 175, 175, 255, 125, 125, 125, 255, 100, 100, 100, 255]
    );
    assert_eq!(horizontal_pass(&image, &kernel, 1, 3), image);
}

#[test]
fn border_column_does_not_darken() {
    let kernel: Kernel = kernel_of(&bell_weights(3, 1.0));
    let mut image: Vec<u8> = vec![250, 250, 250, 255];
    image.extend_from_slice(&[50, 50, 50, 255, 50, 50, 50, 255, 50, 50, 50, 255]);
    assert_eq!(
        horizontal_pass(&image, &kernel, 4, 1),
        vec![190, 190, 190, 255, 110, 110, 110, 255, 62, 62, 62, 255, 51, 51, 51, 255]
    );
}

#[test]
fn border_row_does_not_darken() {
    let kernel: Kernel = kernel_of(&bell_weights(3, 1.0));
    let mut image: Vec<u8> = vec![250, 250, 250, 255, 250, 250, 250, 255];
    for _ in 0..4 {
        image.extend_from_slice(&[50, 50, 50, 255]);
    }
    assert_eq!(
        vertical_pass(&image, &kernel, 2, 3),
        vec![
            190, 190, 190, 255, 190, 190, 190, 255, 110, 110, 110, 255, 110, 110, 110, 255, 62,
            62, 62, 255, 62, 62, 62, 255,
        ]
    );
    // all rows are the same along their length
    assert_eq!(horizontal_pass(&image, &kernel, 2, 3), image);
}

#[test]
fn pass_rounds_to_nearest() {
    let kernel: Kernel = kernel_of(&[1, 0, 1]);
    let image: Vec<u8> = vec![0, 1, 2, 3, 9, 9, 9, 9, 1, 2, 3, 4];
    assert_eq!(
        horizontal_pass(&image, &kernel, 3, 1),
        vec![5, 5, 6, 6, 1, 2, 3, 4, 5, 6, 6, 7]
    );
}

#[test]
fn passes_mix_each_channel_on_its_own() {
    let kernel: Kernel = kernel_of(&bell_weights(1, 1.0));
    let image: Vec<u8> = vec![
        10, 20, 30, 40, 50, 60, 70, 80, 90, 100, 110, 120, 130, 140, 150, 160, 170, 180, 190,
        200, 210, 220, 230, 240,
    ];
    let rows: Vec<u8> = horizontal_pass(&image, &kernel, 3, 2);
    assert_eq!(
        rows,
        vec![
            21, 31, 41, 51, 50, 60, 70, 80, 79, 89, 99, 109, 141, 151, 161, 171, 170, 180, 190,
            200, 199, 209, 219, 229,
        ]
    );
    assert_eq!(
        vertical_pass(&image, &kernel, 3, 2),
        vec![
            43, 53, 63, 73, 83, 93, 103, 113, 123, 133, 143, 153, 97, 107, 117, 127, 137, 147,
            157, 167, 177, 187, 197, 207,
        ]
    );
    let both: Vec<u8> = vec![
        54, 64, 74, 84, 83, 93, 103, 113, 112, 122, 132, 142, 108, 118, 128, 138, 137, 147, 157,
        167, 166, 176, 186, 196,
    ];
    assert_eq!(vertical_pass(&rows, &kernel, 3, 2), both);
    assert_eq!(gaussian_blur(&image, 3, 2, &kernel), both);
    assert_eq!(blur(&image, 2, 3, &kernel), both);
}

#[test]
fn convolve_1d_is_the_pass_of_its_axis() {
    let kernel: Kernel = kernel_of(&[1, 4, 6, 4, 1]);
    let image: Vec<u8> = vec![0, 0, 0, 255, 255, 255, 255, 255];
    assert_eq!(
        convolve_1d(&image, &kernel, 2, 1, Axis::Horizontal),
        vec![80, 80, 80, 255, 175, 175, 175, 255]
    );
    assert_eq!(
        convolve_1d(&image, &kernel, 2, 1, Axis::Horizontal),
        horizontal_pass(&image, &kernel, 2, 1)
    );
    assert_eq!(
        convolve_1d(&image, &kernel, 1, 2, Axis::Vertical),
        vec![80, 80, 80, 255, 175, 175, 175, 255]
    );
    assert_eq!(
        convolve_1d(&image, &kernel, 1, 2, Axis::Vertical),
        vertical_pass(&image, &kernel, 1, 2)
    );
    assert_eq!(convolve_1d(&image, &kernel, 2, 1, Axis::Vertical), image);
}

#[test]
fn kernel_wider_than_image_reads_border_pixels() {
    let kernel: Kernel = kernel_of(&bell_weights(60, 20.0));
    let image: Vec<u8> = vec![40, 80, 120, 255];
    assert_eq!(gaussian_blur(&image, 1, 1, &kernel), image);
    assert_eq!(blur(&image, 1, 1, &kernel), image);
}

#[test]
fn blur_keeps_length() {
    let kernel: Kernel = kernel_of(&bell_weights(3, 1.0));
    let mut image: Vec<u8> = Vec::new();
    for i in 0..(5 * 7 * 4) {
        image.push((i * 37 % 256) as u8);
    }
    assert_eq!(gaussian_blur(&image, 5, 7, &kernel).len(), image.len());
    assert_eq!(gaussian_blur(&image, 7, 5, &kernel).len(), image.len());
    assert_eq!(blur(&image, 7, 5, &kernel).len(), image.len());
    assert_eq!(horizontal_pass(&image, &kernel, 35, 1).len(), image.len());
    assert_eq!(vertical_pass(&image, &kernel, 1, 35).len(), image.len());
}

#[test]
fn blur_of_empty_image_is_empty() {
    let kernel: Kernel = kernel_of(&[1, 2, 1]);
    assert_eq!(gaussian_blur(&[], 0, 0, &kernel), Vec::<u8>::new());
    assert_eq!(gaussian_blur(&[], 0, 4, &kernel), Vec::<u8>::new());
    assert_eq!(blur(&[], 4, 0, &kernel), Vec::<u8>::new());
}

#[test]
fn blur_keeps_uniform_image() {
    let kernels: Vec<Kernel> = vec![
        kernel_of(&[1]),
        kernel_of(&[1, 1, 1]),
        kernel_of(&[1, 1, 5]),
        kernel_of(&bell_weights(1, 0.2)),
        kernel_of(&bell_weights(3, 1.0)),
        kernel_of(&bell_weights(12, 4.0)),
    ];
    let colours: Vec<[u8; 4]> = vec![
        [0, 0, 0, 0],
        [17, 34, 51, 255],
        [255, 255, 255, 255],
        [1, 254, 128, 3],
    ];
    for kernel in &kernels {
        for colour in &colours {
            let mut image: Vec<u8> = Vec::new();
            for _ in 0..(4 * 3) {
                image.extend_from_slice(colour);
            }
            assert_eq!(gaussian_blur(&image, 4, 3, kernel), image);
            assert_eq!(blur(&image, 4, 3, kernel), image);
            assert_eq!(blur(&image, 1, 12, kernel), image);
        }
    }
}

#[test]
fn identity_kernel_keeps_image() {
    let kernel: Kernel = kernel_of(&[3]);
    let image: Vec<u8> = vec![1, 2, 3, 4, 250, 251, 252, 253, 9, 8, 7, 6, 0, 0, 0, 0];
    assert_eq!(horizontal_pass(&image, &kernel, 2, 2), image);
    assert_eq!(vertical_pass(&image, &kernel, 2, 2), image);
    assert_eq!(gaussian_blur(&image, 2, 2, &kernel), image);
}

#[test]
fn blur_takes_height_before_width() {
    let kernel: Kernel = kernel_of(&[1, 2, 1]);
    let image: Vec<u8> = vec![200, 200, 200, 255, 100, 100, 100, 255, 100, 100, 100, 255];
    // one row of three pixels
    assert_eq!(
        blur(&image, 1, 3, &kernel),
        vec![175, 175, 175, 255, 125, 125, 125, 255, 100, 100, 100, 255]
    );
    assert_eq!(blur(&image, 1, 3, &kernel), gaussian_blur(&image, 3, 1, &kernel));
}

#[test]
fn pass_stays_between_least_and_greatest_of_line() {
    let kernel: Kernel = kernel_of(&bell_weights(4, 2.0));
    let width: usize = 6;
    let height: usize = 5;
    let mut image: Vec<u8> = Vec::new();
    for i in 0..(width * height * 4) {
        image.push((i * 97 % 251) as u8);
    }
    let rows: Vec<u8> = horizontal_pass(&image, &kernel, width, height);
    let columns: Vec<u8> = vertical_pass(&image, &kernel, width, height);
    for y in 0..height {
        for x in 0..width {
            for c in 0..4 {
                let in_row = (0..width).map(|other| image[(y * width + other) * 4 + c]);
                let least: u8 = in_row.clone().min().unwrap();
                let greatest: u8 = in_row.max().unwrap();
                let sample: u8 = rows[(y * width + x) * 4 + c];
                assert!(least <= sample && sample <= greatest);
                let in_column = (0..height).map(|other| image[(other * width + x) * 4 + c]);
                let least: u8 = in_column.clone().min().unwrap();
                let greatest: u8 = in_column.max().unwrap();
                let sample: u8 = columns[(y * width + x) * 4 + c];
                assert!(least <= sample && sample <= greatest);
            }
        }
    }
}

#[test]
fn kernel_clone_keeps_weights() {
    let kernel: Kernel = kernel_of(&[1, 3, 1]);
    let copy: Kernel = kernel.clone();
    assert_eq!(copy.weights(), kernel.weights());
    assert_eq!(copy.radius(), 1);
}
