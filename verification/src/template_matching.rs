//! The values that template matching works with, and the search for the
//! extremes of an image.

use vstd::prelude::*;
use crate::definitions::GrayImage;

verus! {

/// Method used to compute the matching score between a template and an image region.
#[derive(Copy, Clone, Debug, PartialEq, Eq, Structural)]
pub enum MatchTemplateMethod {
    /// Sum of the squares of the difference between image and template pixel
    /// intensities.
    ///
    /// Smaller values are better.
    SumOfSquaredErrors,
    /// Divides the sum computed using `SumOfSquaredErrors` by a normalization term.
    SumOfSquaredErrorsNormalized,
    /// Cross Correlation
    ///
    /// Higher values are better.
    CrossCorrelation,
    /// Divides the sum computed using `CrossCorrelation` by a normalization term.
    CrossCorrelationNormalized,
}

impl MatchTemplateMethod {
    /// Whether the score of this method is divided by a normalization term.
    pub open spec fn normalizes(self) -> bool {
        self == MatchTemplateMethod::SumOfSquaredErrorsNormalized || self
            == MatchTemplateMethod::CrossCorrelationNormalized
    }

    /// Whether the score of this method is divided by a normalization term.
    pub fn should_normalize(self) -> (normalize: bool)
        ensures
            normalize == self.normalizes(),
    {
        match self {
            MatchTemplateMethod::SumOfSquaredErrorsNormalized
            | MatchTemplateMethod::CrossCorrelationNormalized => true,
            _ => false,
        }
    }
}

/// The largest and smallest values in an image,
/// together with their locations.
#[derive(Copy, Debug, PartialEq, Eq)]
pub struct Extremes<T> {
    /// The largest value in an image.
    pub max_value: T,
    /// The smallest value in an image.
    pub min_value: T,
    /// The coordinates of the largest value in an image.
    pub max_value_location: (u32, u32),
    /// The coordinates of the smallest value in an image.
    pub min_value_location: (u32, u32),
}

impl<T: Copy> Clone for Extremes<T> {
    fn clone(&self) -> (copy: Self)
        ensures
            copy == *self,
    {
        *self
    }
}

/// The pixel `(x, y)` is read before the pixel `(u, v)` when the image is
/// read row by row.
pub open spec fn read_before(x: int, y: int, u: int, v: int) -> bool {
    y < v || (y == v && x < u)
}

/// `at` is the first place, read row by row, of the largest value of the image.
pub open spec fn is_first_max(image: &GrayImage, value: u8, at: (u32, u32)) -> bool {
    &&& at.0 < image.spec_width() && at.1 < image.spec_height()
    &&& image.pixel(at.0 as int, at.1 as int) == value
    &&& forall|x: int, y: int|
        0 <= x < image.spec_width() && 0 <= y < image.spec_height() ==> #[trigger] image.pixel(x, y)
            <= value
    &&& forall|x: int, y: int|
        0 <= x < image.spec_width() && 0 <= y < image.spec_height() && read_before(
            x,
            y,
            at.0 as int,
            at.1 as int,
        ) ==> #[trigger] image.pixel(x, y) < value
}

/// `at` is the first place, read row by row, of the smallest value of the image.
pub open spec fn is_first_min(image: &GrayImage, value: u8, at: (u32, u32)) -> bool {
    &&& at.0 < image.spec_width() && at.1 < image.spec_height()
    &&& image.pixel(at.0 as int, at.1 as int) == value
    &&& forall|x: int, y: int|
        0 <= x < image.spec_width() && 0 <= y < image.spec_height() ==> #[trigger] image.pixel(x, y)
            >= value
    &&& forall|x: int, y: int|
        0 <= x < image.spec_width() && 0 <= y < image.spec_height() && read_before(
            x,
            y,
            at.0 as int,
            at.1 as int,
        ) ==> #[trigger] image.pixel(x, y) > value
}

/// The largest value of the pixels read before `(x, y)`, with the place
/// where it was first read.
pub open spec fn max_so_far(image: &GrayImage, x: int, y: int, value: u8, at: (u32, u32)) -> bool {
    &&& at.0 < image.spec_width() && at.1 < image.spec_height()
    &&& image.pixel(at.0 as int, at.1 as int) == value
    &&& read_before(at.0 as int, at.1 as int, x, y) || at == (0u32, 0u32)
    &&& forall|u: int, v: int|
        0 <= u < image.spec_width() && 0 <= v < image.spec_height() && read_before(u, v, x, y)
            ==> #[trigger] image.pixel(u, v) <= value
    &&& forall|u: int, v: int|
        0 <= u < image.spec_width() && 0 <= v < image.spec_height() && read_before(
            u,
            v,
            at.0 as int,
            at.1 as int,
        ) ==> #[trigger] image.pixel(u, v) < value
}

/// The smallest value of the pixels read before `(x, y)`, with the place
/// where it was first read.
pub open spec fn min_so_far(image: &GrayImage, x: int, y: int, value: u8, at: (u32, u32)) -> bool {
    &&& at.0 < image.spec_width() && at.1 < image.spec_height()
    &&& image.pixel(at.0 as int, at.1 as int) == value
    &&& read_before(at.0 as int, at.1 as int, x, y) || at == (0u32, 0u32)
    &&& forall|u: int, v: int|
        0 <= u < image.spec_width() && 0 <= v < image.spec_height() && read_before(u, v, x, y)
            ==> #[trigger] image.pixel(u, v) >= value
    &&& forall|u: int, v: int|
        0 <= u < image.spec_width() && 0 <= v < image.spec_height() && read_before(
            u,
            v,
            at.0 as int,
            at.1 as int,
        ) ==> #[trigger] image.pixel(u, v) > value
}

/// What the search knows when it is about to read the pixel `(x, y)`.
pub open spec fn scan_state(
    image: &GrayImage,
    x: int,
    y: int,
    max_value: u8,
    max_at: (u32, u32),
    min_value: u8,
    min_at: (u32, u32),
) -> bool {
    max_so_far(image, x, y, max_value, max_at) && min_so_far(image, x, y, min_value, min_at)
}

/// Finds the largest and smallest values in an image and their locations.
/// If there are multiple such values then the one that is read first, row
/// by row, is returned.
pub fn find_extremes(image: &GrayImage) -> (extremes: Extremes<u8>)
    requires
        image.spec_width() > 0,
        image.spec_height() > 0,
    ensures
        is_first_max(image, extremes.max_value, extremes.max_value_location),
        is_first_min(image, extremes.min_value, extremes.min_value_location),
{
    let (width, height) = image.dimensions();
    let mut min_value = image.get_pixel(0, 0);
    let mut max_value = image.get_pixel(0, 0);

    let mut min_value_location: (u32, u32) = (0, 0);
    let mut max_value_location: (u32, u32) = (0, 0);

    let mut y: u32 = 0;
    while y < height
        invariant
            y <= height,
            width == image.spec_width(),
            height == image.spec_height(),
            width > 0,
            scan_state(image, 0, y as int, max_value, max_value_location, min_value, min_value_location),
        decreases height - y,
    {
        let mut x: u32 = 0;
        while x < width
            invariant
                x <= width,
                y < height,
                width == image.spec_width(),
                height == image.spec_height(),
                width > 0,
                scan_state(
                    image,
                    x as int,
                    y as int,
                    max_value,
                    max_value_location,
                    min_value,
                    min_value_location,
                ),
            decreases width - x,
        {
            let p = image.get_pixel(x, y);
            if p < min_value {
                min_value = p;
                min_value_location = (x, y);
            }
            if p > max_value {
                max_value = p;
                max_value_location = (x, y);
            }
            x += 1;
        }
        y += 1;
    }
    Extremes { max_value, min_value, max_value_location, min_value_location }
}

} // verus!
