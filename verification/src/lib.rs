//! CPU-side filters over raw RGBA pixel buffers: a separable blur with
//! edge-replicated sampling and a Sobel edge detector.
//!
//! A pixel buffer is a flat, row-major sequence of bytes with four
//! interleaved channels per pixel (red, green, blue, alpha). A filter reads
//! its input buffer and returns a new one; nothing is kept between calls.
//!
//! All arithmetic is on integers. The weights of a blur kernel are fixed-point
//! numbers that add up to exactly one, so a blurred sample is a weighted mean
//! of bytes and needs no clamping; a gradient magnitude is the integer part
//! of a square root.
//!
//! Every function states what it returns over the mathematical model of its
//! arguments, and the laws that relate several functions are proof functions
//! beside them.

use crate::blurring::{blur_of, gaussian_blur};
use crate::kernel::Kernel;
use vstd::prelude::*;

pub mod blurring;
pub mod edge_detection;
pub mod kernel;
pub mod shape;

verus! {

/// Number of interleaved channels per pixel.
pub const NUM_CHANNELS: usize = 4;

/// Why a filter refused its input.
#[derive(Clone, Copy, Debug, PartialEq, Eq, Structural)]
pub enum FilterError {
    /// The image has no pixel with a full 3x3 neighbourhood.
    UndersizedInput,
    /// The blur factor is zero, which gives no kernel shape.
    InvalidBlurFactor,
    /// The raw kernel weights have an even (or zero) count.
    EvenKernelLength,
    /// The raw kernel weights are all zero.
    ZeroKernelWeight,
}

/// Blurs an RGBA image whose dimensions are given as 32-bit numbers, height
/// first: a convolution with the kernel along the rows, then one along the
/// columns. The result has the shape of the image.
pub fn blur(original_image: &[u8], height: u32, width: u32, kernel: &Kernel) -> (output_image: Vec<
    u8,
>)
    requires
        original_image@.len() == width * height * 4,
    ensures
        output_image@ == blur_of(original_image@, kernel@, width as int, height as int),
        output_image@.len() == original_image@.len(),
{
    gaussian_blur(original_image, width as usize, height as usize, kernel)
}

} // verus!
