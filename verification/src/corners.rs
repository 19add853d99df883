//! Functions for detecting corners, also known as interest points.

use vstd::prelude::*;
use crate::definitions::GrayImage;

verus! {

/// A location and score for a detected corner. The score of a FAST corner
/// is a threshold, so a whole number.
#[derive(Debug, Copy, Clone, PartialEq, Eq, Structural)]
pub struct Corner {
    /// The column of the corner.
    pub x: u32,
    /// The row of the corner.
    pub y: u32,
    /// How strongly the detector answered.
    pub score: u8,
}

impl Corner {
    /// A corner at `(x, y)` with the given score.
    pub fn new(x: u32, y: u32, score: u8) -> (corner: Corner)
        ensures
            corner == (Corner { x, y, score }),
    {
        Corner { x, y, score }
    }

    /// The column of the corner.
    pub fn x(&self) -> (x: u32)
        ensures
            x == self.x,
    {
        self.x
    }

    /// The row of the corner.
    pub fn y(&self) -> (y: u32)
        ensures
            y == self.y,
    {
        self.y
    }

    /// The score of the corner.
    pub fn score(&self) -> (score: u8)
        ensures
            score == self.score,
    {
        self.score
    }
}

/// Variants of the FAST corner detector. These classify a point based on
/// its intensity relative to the 16 pixels in the Bresenham circle of
/// radius 3 around it. A point P with intensity I is detected as a corner
/// if all pixels in a sufficiently long contiguous section of this circle
/// either all have intensity greater than I + t or all have intensity less
/// than I - t, for some user-provided threshold t. The score of a corner is
/// the greatest threshold for which the given pixel still qualifies as a
/// corner.
#[derive(Debug, Copy, Clone, PartialEq, Eq, Structural)]
pub enum Fast {
    /// Corners require a section of length at least nine.
    Nine,
    /// Corners require a section of length at least twelve.
    Twelve,
}

/// The place on the circle that lies `d` steps after `start`.
pub open spec fn wrap(start: int, d: int) -> int {
    (start + d) % 16
}

/// The `length` places of the circle from `start` on, the circle being
/// closed, are all marked.
pub open spec fn span_at(marks: Seq<bool>, start: int, length: int) -> bool {
    forall|d: int| 0 <= d < length ==> marks[#[trigger] wrap(start, d)]
}

/// The circle of 16 marks has a contiguous section of `length` marked
/// places. No section is longer than the circle.
pub open spec fn has_span(marks: Seq<bool>, length: int) -> bool {
    length <= 16 && exists|start: int| 0 <= start < 16 && #[trigger] span_at(marks, start, length)
}

/// `answer` is what `test` can say of the pixel value `c`.
pub open spec fn says<F: Fn(&i16) -> bool>(test: F, c: i16, answer: bool) -> bool {
    test.ensures((&c,), answer)
}

/// `test` has said yes to each of the `length` pixels of the circle from `start` on.
pub open spec fn span_passes<F: Fn(&i16) -> bool>(
    circle: Seq<i16>,
    test: F,
    start: int,
    length: int,
) -> bool {
    forall|d: int| 0 <= d < length ==> says(test, circle[#[trigger] wrap(start, d)], true)
}

/// `test` has said no to one of the `length` pixels of the circle from `start` on.
pub open spec fn span_fails<F: Fn(&i16) -> bool>(
    circle: Seq<i16>,
    test: F,
    start: int,
    length: int,
) -> bool {
    exists|d: int| 0 <= d < length && says(test, circle[#[trigger] wrap(start, d)], false)
}

/// True if the circle has a contiguous section of at least the given length, all
/// of whose pixels match f condition.
///
/// The circle is closed: a section may run over the end of the array into
/// its beginning. A section of no pixels is always there, and none is
/// longer than the circle. Each pixel is put to `f` once at most.
pub fn search_span<F>(circle: &[i16; 16], length: u8, f: F) -> (found: bool) where
    F: Fn(&i16) -> bool,

    requires
        forall|c: &i16| #[trigger] f.requires((c,)),
    ensures
        found ==> length <= 16 && exists|start: int|
            0 <= start < 16 && #[trigger] span_passes(circle@, f, start, length as int),
        !found ==> length > 16 || forall|start: int|
            0 <= start < 16 ==> #[trigger] span_fails(circle@, f, start, length as int),
{
    if length > 16 {
        return false;
    }
    if length == 0 {
        assert(span_passes(circle@, f, 0, 0));
        return true;
    }
    // the length of the matching section that ends at the pixel before `i`
    let mut nb_ok: u8 = 0;
    // the length of the matching section that the circle starts with, once it has ended
    let mut nb_ok_start: Option<u8> = None;
    let mut i: usize = 0;
    let ghost mut marks: Seq<bool> = Seq::empty();
    while i < 16
        invariant
            1 <= length <= 16,
            i <= 16,
            marks.len() == i,
            forall|j: int| 0 <= j < i ==> says(f, circle@[j], #[trigger] marks[j]),
            forall|c: &i16| #[trigger] f.requires((c,)),
            nb_ok <= i,
            nb_ok < length,
            forall|j: int| i - nb_ok <= j < i ==> marks[j],
            nb_ok < i ==> !marks[i - nb_ok - 1],
            nb_ok_start is None ==> nb_ok == i,
            nb_ok_start matches Some(h) ==> h < i && !marks[h as int] && nb_ok + h < i && forall|j: int|
                0 <= j < h ==> marks[j],
            forall|start: int|
                0 <= start && start + length <= i ==> #[trigger] span_fails(
                    circle@,
                    f,
                    start,
                    length as int,
                ),
        decreases 16 - i,
    {
        let ok = f(&circle[i]);
        proof {
            assert(says(f, circle@[i as int], ok));
            marks = marks.push(ok);
        }
        if ok {
            nb_ok += 1;
            if nb_ok == length {
                proof {
                    let start = i + 1 - length;
                    assert forall|d: int| 0 <= d < length implies says(
                        f,
                        circle@[#[trigger] wrap(start, d)],
                        true,
                    ) by {
                        assert(wrap(start, d) == start + d);
                        assert(marks[start + d]);
                    }
                    assert(span_passes(circle@, f, start, length as int));
                }
                return true;
            }
            proof {
                let start = i + 1 - length;
                if start >= 0 {
                    let gap = i - nb_ok;
                    assert(wrap(start, gap - start) == gap);
                    assert(!marks[gap]);
                    assert(span_fails(circle@, f, start, length as int));
                }
            }
        } else {
            if nb_ok_start.is_none() {
                nb_ok_start = Some(nb_ok);
            }
            nb_ok = 0;
            proof {
                let start = i + 1 - length;
                if start >= 0 {
                    assert(wrap(start, i - start) == i);
                    assert(!marks[i as int]);
                    assert(span_fails(circle@, f, start, length as int));
                }
            }
        }
        i += 1;
    }
    let head = nb_ok_start.unwrap();
    let found = nb_ok + head >= length;
    proof {
        if found {
            let start: int = if nb_ok == 0 { 0 } else { 16 - nb_ok };
            assert forall|d: int| 0 <= d < length implies says(
                f,
                circle@[#[trigger] wrap(start, d)],
                true,
            ) by {
                if nb_ok == 0 {
                    assert(wrap(start, d) == d);
                    assert(marks[d]);
                } else if d < nb_ok {
                    assert(wrap(start, d) == 16 - nb_ok + d);
                    assert(marks[16 - nb_ok + d]);
                } else {
                    assert(wrap(start, d) == d - nb_ok);
                    assert(marks[d - nb_ok]);
                }
            }
            assert(span_passes(circle@, f, start, length as int));
        } else {
            assert forall|start: int| 0 <= start < 16 implies #[trigger] span_fails(
                circle@,
                f,
                start,
                length as int,
            ) by {
                if start + length > 16 {
                    // the section runs over the end of the circle
                    let gap = 16 - nb_ok - 1;
                    if start <= gap {
                        assert(wrap(start, gap - start) == gap);
                        assert(!marks[gap]);
                    } else {
                        assert(wrap(start, 16 - start + head) == head);
                        assert(!marks[head as int]);
                    }
                }
            }
        }
    }
    found
}

/// The places of `circle` whose pixels are brighter than `threshold`.
pub open spec fn bright_marks(circle: Seq<i16>, threshold: i16) -> Seq<bool> {
    Seq::new(16, |i: int| circle[i] > threshold)
}

/// The places of `circle` whose pixels are darker than `threshold`.
pub open spec fn dark_marks(circle: Seq<i16>, threshold: i16) -> Seq<bool> {
    Seq::new(16, |i: int| circle[i] < threshold)
}

/// True if the circle has a contiguous section of at least the given length, all
/// of whose pixels have intensities strictly greater than the threshold.
pub fn has_bright_span(circle: &[i16; 16], length: u8, threshold: i16) -> (found: bool)
    ensures
        found == has_span(bright_marks(circle@, threshold), length as int),
{
    let brighter = |c: &i16| -> (b: bool)
        ensures
            b == (*c > threshold),
        { *c > threshold };
    let found = search_span(circle, length, brighter);
    proof {
        let marks = bright_marks(circle@, threshold);
        if found {
            let start = choose|start: int|
                0 <= start < 16 && #[trigger] span_passes(circle@, brighter, start, length as int);
            assert forall|d: int| 0 <= d < length implies marks[#[trigger] wrap(start, d)] by {
                assert(says(brighter, circle@[wrap(start, d)], true));
            }
            assert(span_at(marks, start, length as int));
        } else if length <= 16 {
            assert forall|start: int| 0 <= start < 16 implies !#[trigger] span_at(
                marks,
                start,
                length as int,
            ) by {
                assert(span_fails(circle@, brighter, start, length as int));
                let d = choose|d: int|
                    0 <= d < length && says(brighter, circle@[#[trigger] wrap(start, d)], false);
                assert(!marks[wrap(start, d)]);
            }
        }
    }
    found
}

/// True if the circle has a contiguous section of at least the given length, all
/// of whose pixels have intensities strictly less than the threshold.
pub fn has_dark_span(circle: &[i16; 16], length: u8, threshold: i16) -> (found: bool)
    ensures
        found == has_span(dark_marks(circle@, threshold), length as int),
{
    let darker = |c: &i16| -> (b: bool)
        ensures
            b == (*c < threshold),
        { *c < threshold };
    let found = search_span(circle, length, darker);
    proof {
        let marks = dark_marks(circle@, threshold);
        if found {
            let start = choose|start: int|
                0 <= start < 16 && #[trigger] span_passes(circle@, darker, start, length as int);
            assert forall|d: int| 0 <= d < length implies marks[#[trigger] wrap(start, d)] by {
                assert(says(darker, circle@[wrap(start, d)], true));
            }
            assert(span_at(marks, start, length as int));
        } else if length <= 16 {
            assert forall|start: int| 0 <= start < 16 implies !#[trigger] span_at(
                marks,
                start,
                length as int,
            ) by {
                assert(span_fails(circle@, darker, start, length as int));
                let d = choose|d: int|
                    0 <= d < length && says(darker, circle@[#[trigger] wrap(start, d)], false);
                assert(!marks[wrap(start, d)]);
            }
        }
    }
    found
}

// The places on the circle of radius 3 round the pixel p:
//
//          15 00 01
//       14          02
//     13              03
//     12       p      04
//     11              05
//       10          06
//          09 08 07

/// How many columns the place `i` of the circle lies to the right of its centre.
pub open spec fn circle_dx(i: int) -> int {
    seq![0int, 1, 2, 3, 3, 3, 2, 1, 0, -1, -2, -3, -3, -3, -2, -1][i]
}

/// How many rows the place `i` of the circle lies below its centre.
pub open spec fn circle_dy(i: int) -> int {
    seq![-3int, -3, -2, -1, 0, 1, 2, 3, 3, 3, 2, 1, 0, -1, -2, -3][i]
}

/// The circle round `(x, y)` lies inside the image.
pub open spec fn circle_fits(image: &GrayImage, x: int, y: int) -> bool {
    3 <= x && 3 <= y && x + 3 < image.spec_width() && y + 3 < image.spec_height()
}

/// The intensities on the circle round `(x, y)`, from the top clockwise.
pub open spec fn circle_of(image: &GrayImage, x: int, y: int) -> Seq<i16> {
    Seq::new(16, |i: int| image.pixel(x + circle_dx(i), y + circle_dy(i)) as i16)
}

/// Whether FAST-9 takes `(x, y)` for a corner at the given threshold: of
/// the four pixels straight above, right, below and left, two neighbours are
/// both brighter than the centre by more than the threshold, and so are nine
/// pixels in a row on the circle; or the same with darker.
pub open spec fn fast9_at(image: &GrayImage, threshold: u8, x: int, y: int) -> bool {
    circle_fits(image, x, y) && {
        let c = image.pixel(x, y);
        let low = (c - threshold) as i16;
        let high = (c + threshold) as i16;
        let p = circle_of(image, x, y);
        let above = (p[0] > high && p[4] > high) || (p[4] > high && p[8] > high) || (p[8] > high
            && p[12] > high) || (p[12] > high && p[0] > high);
        let below = (p[0] < low && p[4] < low) || (p[4] < low && p[8] < low) || (p[8] < low && p[12]
            < low) || (p[12] < low && p[0] < low);
        (above && has_span(bright_marks(p, high), 9)) || (below && has_span(dark_marks(p, low), 9))
    }
}

/// Whether FAST-12 takes `(x, y)` for a corner at the given threshold: the
/// pixels straight above and below, and the one to the right or the one to
/// the left, are all brighter than the centre by more than the threshold,
/// and so are twelve pixels in a row on the circle; or the same with darker.
pub open spec fn fast12_at(image: &GrayImage, threshold: u8, x: int, y: int) -> bool {
    circle_fits(image, x, y) && {
        let c = image.pixel(x, y);
        let low = (c - threshold) as i16;
        let high = (c + threshold) as i16;
        let p = circle_of(image, x, y);
        let above = p[0] > high && p[8] > high && (p[4] > high || p[12] > high);
        let below = p[0] < low && p[8] < low && (p[4] < low || p[12] < low);
        (above && has_span(bright_marks(p, high), 12)) || (below && has_span(dark_marks(p, low), 12))
    }
}

/// Whether the given variant of FAST takes `(x, y)` for a corner.
pub open spec fn corner_at(image: &GrayImage, variant: Fast, threshold: u8, x: int, y: int) -> bool {
    match variant {
        Fast::Nine => fast9_at(image, threshold, x, y),
        Fast::Twelve => fast12_at(image, threshold, x, y),
    }
}

/// Reads the intensities on the circle round `(x, y)`.
fn read_circle(image: &GrayImage, x: u32, y: u32) -> (pixels: [i16; 16])
    requires
        circle_fits(image, x as int, y as int),
    ensures
        pixels@ == circle_of(image, x as int, y as int),
{
    let pixels: [i16; 16] = [
        image.get_pixel(x, y - 3) as i16,
        image.get_pixel(x + 1, y - 3) as i16,
        image.get_pixel(x + 2, y - 2) as i16,
        image.get_pixel(x + 3, y - 1) as i16,
        image.get_pixel(x + 3, y) as i16,
        image.get_pixel(x + 3, y + 1) as i16,
        image.get_pixel(x + 2, y + 2) as i16,
        image.get_pixel(x + 1, y + 3) as i16,
        image.get_pixel(x, y + 3) as i16,
        image.get_pixel(x - 1, y + 3) as i16,
        image.get_pixel(x - 2, y + 2) as i16,
        image.get_pixel(x - 3, y + 1) as i16,
        image.get_pixel(x - 3, y) as i16,
        image.get_pixel(x - 3, y - 1) as i16,
        image.get_pixel(x - 2, y - 2) as i16,
        image.get_pixel(x - 1, y - 3) as i16,
    ];
    assert(pixels@ =~= circle_of(image, x as int, y as int));
    pixels
}

/// Whether the circle round `(x, y)` lies inside the image.
fn fits(image: &GrayImage, x: u32, y: u32) -> (inside: bool)
    ensures
        inside == circle_fits(image, x as int, y as int),
{
    let (width, height) = image.dimensions();
    x >= 3 && y >= 3 && width >= 3 && height >= 3 && x < width - 3 && y < height - 3
}

/// Checks if the given pixel is a corner according to the FAST9 detector.
/// A pixel whose circle does not lie inside the image is none.
pub fn is_corner_fast9(image: &GrayImage, threshold: u8, x: u32, y: u32) -> (corner: bool)
    ensures
        corner == fast9_at(image, threshold, x as int, y as int),
{
    if !fits(image, x, y) {
        return false;
    }
    let c = image.get_pixel(x, y);
    let low_thresh: i16 = c as i16 - threshold as i16;
    let high_thresh: i16 = c as i16 + threshold as i16;

    let top = image.get_pixel(x, y - 3) as i16;
    let bottom = image.get_pixel(x, y + 3) as i16;
    let right = image.get_pixel(x + 3, y) as i16;
    let left = image.get_pixel(x - 3, y) as i16;

    let above = (top > high_thresh && right > high_thresh) || (right > high_thresh && bottom > high_thresh)
        || (bottom > high_thresh && left > high_thresh) || (left > high_thresh && top > high_thresh);

    let below = (top < low_thresh && right < low_thresh) || (right < low_thresh && bottom < low_thresh) || (bottom
        < low_thresh && left < low_thresh) || (left < low_thresh && top < low_thresh);

    if !above && !below {
        return false;
    }
    let pixels = read_circle(image, x, y);
    assert(pixels@[0] == top && pixels@[4] == right && pixels@[8] == bottom && pixels@[12] == left);

    // above and below could both be true
    (above && has_bright_span(&pixels, 9, high_thresh)) || (below && has_dark_span(
        &pixels,
        9,
        low_thresh,
    ))
}

/// Checks if the given pixel is a corner according to the FAST12 detector.
/// A pixel whose circle does not lie inside the image is none.
pub fn is_corner_fast12(image: &GrayImage, threshold: u8, x: u32, y: u32) -> (corner: bool)
    ensures
        corner == fast12_at(image, threshold, x as int, y as int),
{
    if !fits(image, x, y) {
        return false;
    }
    let c = image.get_pixel(x, y);
    let low_thresh: i16 = c as i16 - threshold as i16;
    let high_thresh: i16 = c as i16 + threshold as i16;

    let top = image.get_pixel(x, y - 3) as i16;
    let bottom = image.get_pixel(x, y + 3) as i16;

    let mut above = top > high_thresh && bottom > high_thresh;
    let mut below = top < low_thresh && bottom < low_thresh;

    if !above && !below {
        return false;
    }
    let right = image.get_pixel(x + 3, y) as i16;
    let left = image.get_pixel(x - 3, y) as i16;

    above = above && ((right > high_thresh) || (left > high_thresh));
    below = below && ((right < low_thresh) || (left < low_thresh));

    if !above && !below {
        return false;
    }
    let pixels = read_circle(image, x, y);
    assert(pixels@[0] == top && pixels@[4] == right && pixels@[8] == bottom && pixels@[12] == left);

    // Exactly one of above or below is true
    if above {
        has_bright_span(&pixels, 12, high_thresh)
    } else {
        has_dark_span(&pixels, 12, low_thresh)
    }
}

/// A section of marked places stays one when more places are marked.
pub proof fn lemma_span_grows(fewer: Seq<bool>, more: Seq<bool>, length: int)
    requires
        forall|i: int| 0 <= i < 16 && fewer[i] ==> more[i],
        has_span(fewer, length),
    ensures
        has_span(more, length),
{
    let start = choose|start: int| 0 <= start < 16 && #[trigger] span_at(fewer, start, length);
    assert forall|d: int| 0 <= d < length implies more[#[trigger] wrap(start, d)] by {
        assert(fewer[wrap(start, d)]);
    }
    assert(span_at(more, start, length));
}

/// A corner at one threshold is a corner at every smaller one.
pub proof fn lemma_corner_at_smaller_threshold(
    image: &GrayImage,
    variant: Fast,
    smaller: u8,
    larger: u8,
    x: int,
    y: int,
)
    requires
        smaller <= larger,
        corner_at(image, variant, larger, x, y),
    ensures
        corner_at(image, variant, smaller, x, y),
{
    let c = image.pixel(x, y);
    let p = circle_of(image, x, y);
    let length: int = match variant {
        Fast::Nine => 9,
        Fast::Twelve => 12,
    };
    let high2 = (c + larger) as i16;
    let high1 = (c + smaller) as i16;
    let low2 = (c - larger) as i16;
    let low1 = (c - smaller) as i16;
    if has_span(bright_marks(p, high2), length) {
        lemma_span_grows(bright_marks(p, high2), bright_marks(p, high1), length);
    }
    if has_span(dark_marks(p, low2), length) {
        lemma_span_grows(dark_marks(p, low2), dark_marks(p, low1), length);
    }
}

/// The score of a corner detected using the FAST
/// detector is the largest threshold for which this
/// pixel is still a corner. We input the threshold at which
/// the corner was detected as a lower bound on the search.
/// Note that the corner check uses a strict inequality, so if
/// the smallest intensity difference between the center pixel
/// and a corner pixel is n then the corner will have a score of n - 1.
///
/// For a pixel that is no corner at `threshold`, the score is `threshold`.
pub fn fast_corner_score(image: &GrayImage, threshold: u8, x: u32, y: u32, variant: Fast) -> (score: u8)
    ensures
        threshold <= score,
        corner_at(image, variant, threshold, x as int, y as int) ==> corner_at(
            image,
            variant,
            score,
            x as int,
            y as int,
        ),
        !corner_at(image, variant, threshold, x as int, y as int) ==> score == threshold,
        forall|t: u8| score < t ==> !corner_at(image, variant, t, x as int, y as int),
{
    let mut max: u8 = 255u8;
    let mut min: u8 = threshold;

    loop
        invariant
            threshold <= min <= max,
            corner_at(image, variant, threshold, x as int, y as int) ==> corner_at(
                image,
                variant,
                min,
                x as int,
                y as int,
            ),
            !corner_at(image, variant, threshold, x as int, y as int) ==> min == threshold,
            forall|t: u8| max < t ==> !corner_at(image, variant, t, x as int, y as int),
        decreases max - min,
    {
        if max == min {
            return max;
        }
        let mean = ((max as u16 + min as u16) / 2u16) as u8;
        let probe = if max == min + 1 { max } else { mean };

        let is_corner = match variant {
            Fast::Nine => is_corner_fast9(image, probe, x, y),
            Fast::Twelve => is_corner_fast12(image, probe, x, y),
        };

        if is_corner {
            proof {
                if !corner_at(image, variant, threshold, x as int, y as int) {
                    lemma_corner_at_smaller_threshold(image, variant, threshold, probe, x as int, y as int);
                }
            }
            min = probe;
        } else {
            proof {
                assert forall|t: u8| probe - 1 < t implies !corner_at(
                    image,
                    variant,
                    t,
                    x as int,
                    y as int,
                ) by {
                    if corner_at(image, variant, t, x as int, y as int) {
                        lemma_corner_at_smaller_threshold(image, variant, probe, t, x as int, y as int);
                    }
                }
            }
            max = probe - 1;
        }
    }
}

/// The corners among the first `n` pixels of row `y`, from left to right,
/// each with its score.
pub open spec fn corners_in_row(image: &GrayImage, variant: Fast, threshold: u8, y: int, n: nat) -> Seq<Corner>
    decreases n,
{
    if n == 0 {
        Seq::empty()
    } else {
        let before = corners_in_row(image, variant, threshold, y, (n - 1) as nat);
        let x = n - 1;
        if corner_at(image, variant, threshold, x, y) {
            before.push(
                Corner { x: x as u32, y: y as u32, score: score_at(image, variant, threshold, x, y) },
            )
        } else {
            before
        }
    }
}

/// The corners in the first `n` rows, row by row.
pub open spec fn corners_in_rows(image: &GrayImage, variant: Fast, threshold: u8, n: nat) -> Seq<Corner>
    decreases n,
{
    if n == 0 {
        Seq::empty()
    } else {
        corners_in_rows(image, variant, threshold, (n - 1) as nat) + corners_in_row(
            image,
            variant,
            threshold,
            n - 1,
            image.spec_width() as nat,
        )
    }
}

/// The score of the corner at `(x, y)`: the largest threshold at which it is a corner.
pub open spec fn score_at(image: &GrayImage, variant: Fast, threshold: u8, x: int, y: int) -> u8 {
    choose|s: u8|
        threshold <= s && corner_at(image, variant, s, x, y) && forall|t: u8|
            s < t ==> !corner_at(image, variant, t, x, y)
}

/// The score that `fast_corner_score` finds for a corner is its `score_at`.
proof fn lemma_score_found(image: &GrayImage, variant: Fast, threshold: u8, x: int, y: int, score: u8)
    requires
        threshold <= score,
        corner_at(image, variant, score, x, y),
        forall|t: u8| score < t ==> !corner_at(image, variant, t, x, y),
    ensures
        score_at(image, variant, threshold, x, y) == score,
{
    let s = score_at(image, variant, threshold, x, y);
    assert(threshold <= s && corner_at(image, variant, s, x, y) && forall|t: u8|
        s < t ==> !corner_at(image, variant, t, x, y));
    assert(!(score < s));
    assert(!(s < score));
}

/// Finds the corners of one variant of FAST, row by row.
fn corners_fast(image: &GrayImage, threshold: u8, variant: Fast) -> (corners: Vec<Corner>)
    ensures
        corners@ == corners_in_rows(image, variant, threshold, image.spec_height() as nat),
{
    let (width, height) = image.dimensions();
    let mut corners: Vec<Corner> = Vec::new();
    let mut y: u32 = 0;
    while y < height
        invariant
            y <= height,
            width == image.spec_width(),
            height == image.spec_height(),
            corners@ == corners_in_rows(image, variant, threshold, y as nat),
        decreases height - y,
    {
        let ghost above = corners@;
        let mut x: u32 = 0;
        while x < width
            invariant
                x <= width,
                y < height,
                width == image.spec_width(),
                height == image.spec_height(),
                corners@ == above + corners_in_row(image, variant, threshold, y as int, x as nat),
            decreases width - x,
        {
            let is_corner = match variant {
                Fast::Nine => is_corner_fast9(image, threshold, x, y),
                Fast::Twelve => is_corner_fast12(image, threshold, x, y),
            };
            if is_corner {
                let score = fast_corner_score(image, threshold, x, y, variant);
                proof {
                    lemma_score_found(image, variant, threshold, x as int, y as int, score);
                }
                corners.push(Corner::new(x, y, score));
            }
            assert(corners@ =~= above + corners_in_row(image, variant, threshold, y as int, (x + 1) as nat));
            x += 1;
        }
        y += 1;
    }
    corners
}

/// Finds corners using FAST-12 features. See comment on Fast enum.
pub fn corners_fast12(image: &GrayImage, threshold: u8) -> (corners: Vec<Corner>)
    ensures
        corners@ == corners_in_rows(image, Fast::Twelve, threshold, image.spec_height() as nat),
{
    corners_fast(image, threshold, Fast::Twelve)
}

/// Finds corners using FAST-9 features. See comment on Fast enum.
pub fn corners_fast9(image: &GrayImage, threshold: u8) -> (corners: Vec<Corner>)
    ensures
        corners@ == corners_in_rows(image, Fast::Nine, threshold, image.spec_height() as nat),
{
    corners_fast(image, threshold, Fast::Nine)
}

/// Nine marked places in a row on the circle hold two neighbours among the
/// four places straight above, right, below and left.
pub proof fn lemma_nine_in_a_row(marks: Seq<bool>)
    requires
        has_span(marks, 9),
    ensures
        (marks[0] && marks[4]) || (marks[4] && marks[8]) || (marks[8] && marks[12]) || (marks[12]
            && marks[0]),
{
    let start = choose|start: int| 0 <= start < 16 && #[trigger] span_at(marks, start, 9);
    // the first of the four places at or after `start`, and the one after it
    let d = (4 - start % 4) % 4;
    assert(marks[wrap(start, d)]);
    assert(marks[wrap(start, d + 4)]);
    assert(wrap(start, d) % 4 == 0);
    assert(wrap(start, d + 4) == (wrap(start, d) + 4) % 16);
}

/// For FAST-9 the look at the four places loses nothing: a pixel is a
/// corner exactly if its circle lies inside the image and holds nine pixels
/// in a row that are all brighter than the centre by more than the
/// threshold, or all darker.
pub proof fn lemma_fast9_is_the_segment_test(image: &GrayImage, threshold: u8, x: int, y: int)
    ensures
        fast9_at(image, threshold, x, y) <==> circle_fits(image, x, y) && {
            let c = image.pixel(x, y);
            let p = circle_of(image, x, y);
            has_span(bright_marks(p, (c + threshold) as i16), 9) || has_span(
                dark_marks(p, (c - threshold) as i16),
                9,
            )
        },
{
    let c = image.pixel(x, y);
    let p = circle_of(image, x, y);
    let high = (c + threshold) as i16;
    let low = (c - threshold) as i16;
    if has_span(bright_marks(p, high), 9) {
        lemma_nine_in_a_row(bright_marks(p, high));
    }
    if has_span(dark_marks(p, low), 9) {
        lemma_nine_in_a_row(dark_marks(p, low));
    }
}

} // verus!
