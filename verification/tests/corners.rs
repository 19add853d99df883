use imageproc::corners::{
    corners_fast12, corners_fast9, fast_corner_score, has_bright_span, has_dark_span, is_corner_fast12,
    is_corner_fast9, search_span, Corner, Fast,
};
use imageproc::definitions::GrayImage;

#[test]
fn test_is_corner_fast12_12_contiguous_darker_pixels() {
    let image: GrayImage = GrayImage::from_raw(7, 7, vec![
        10, 10, 00, 00, 00, 10, 10,
        10, 00, 10, 10, 10, 00, 10,
        00, 10, 10, 10, 10, 10, 10,
        00, 10, 10, 10, 10, 10, 10,
        00, 10, 10, 10, 10, 10, 10,
        10, 00, 10, 10, 10, 10, 10,
        10, 10, 00, 00, 00, 10, 10]).unwrap();

    assert_eq!(is_corner_fast12(&image, 8, 3, 3), true);
}

#[test]
fn test_is_corner_fast12_12_contiguous_darker_pixels_large_threshold() {
    let image: GrayImage = GrayImage::from_raw(7, 7, vec![
        10, 10, 00, 00, 00, 10, 10,
        10, 00, 10, 10, 10, 00, 10,
        00, 10, 10, 10, 10, 10, 10,
        00, 10, 10, 10, 10, 10, 10,
        00, 10, 10, 10, 10, 10, 10,
        10, 00, 10, 10, 10, 10, 10,
        10, 10, 00, 00, 00, 10, 10]).unwrap();

    assert_eq!(is_corner_fast12(&image, 15, 3, 3), false);
}

#[test]
fn test_is_corner_fast12_12_contiguous_lighter_pixels() {
    let image: GrayImage = GrayImage::from_raw(7, 7, vec![
        00, 00, 10, 10, 10, 00, 00,
        00, 10, 00, 00, 00, 10, 00,
        10, 00, 00, 00, 00, 00, 00,
        10, 00, 00, 00, 00, 00, 00,
        10, 00, 00, 00, 00, 00, 00,
        00, 10, 00, 00, 00, 00, 00,
        00, 00, 10, 10, 10, 00, 00]).unwrap();

    assert_eq!(is_corner_fast12(&image, 8, 3, 3), true);
}

#[test]
fn test_is_corner_fast12_12_noncontiguous() {
    let image: GrayImage = GrayImage::from_raw(7, 7, vec![
        10, 10, 00, 00, 00, 10, 10,
        10, 00, 10, 10, 10, 00, 10,
        00, 10, 10, 10, 10, 10, 10,
        00, 10, 10, 10, 10, 10, 10,
        10, 10, 10, 10, 10, 10, 00,
        10, 00, 10, 10, 10, 10, 10,
        10, 10, 00, 00, 00, 10, 10]).unwrap();

    assert_eq!(is_corner_fast12(&image, 8, 3, 3), false);
}

#[test]
fn test_is_corner_fast12_near_image_boundary() {
    let image: GrayImage = GrayImage::from_raw(7, 7, vec![
        10, 10, 00, 00, 00, 10, 10,
        10, 00, 10, 10, 10, 00, 10,
        00, 10, 10, 10, 10, 10, 10,
        00, 10, 10, 10, 10, 10, 10,
        00, 10, 10, 10, 10, 10, 10,
        10, 00, 10, 10, 10, 10, 10,
        10, 10, 00, 00, 00, 10, 10]).unwrap();

    assert_eq!(is_corner_fast12(&image, 8, 1, 1), false);
}

#[test]
fn test_fast_corner_score_12() {
    let image: GrayImage = GrayImage::from_raw(7, 7, vec![
        10, 10, 00, 00, 00, 10, 10,
        10, 00, 10, 10, 10, 00, 10,
        00, 10, 10, 10, 10, 10, 10,
        00, 10, 10, 10, 10, 10, 10,
        00, 10, 10, 10, 10, 10, 10,
        10, 00, 10, 10, 10, 10, 10,
        10, 10, 00, 00, 00, 10, 10]).unwrap();

    let score = fast_corner_score(&image, 5, 3, 3, Fast::Twelve);
    assert_eq!(score, 9);

    let score = fast_corner_score(&image, 9, 3, 3, Fast::Twelve);
    assert_eq!(score, 9);
}

#[test]
fn test_is_corner_fast9_9_contiguous_darker_pixels() {
    let image: GrayImage = GrayImage::from_raw(7, 7, vec![
        10, 10, 00, 00, 00, 10, 10,
        10, 00, 10, 10, 10, 00, 10,
        00, 10, 10, 10, 10, 10, 10,
        00, 10, 10, 10, 10, 10, 10,
        00, 10, 10, 10, 10, 10, 10,
        10, 00, 10, 10, 10, 10, 10,
        10, 10, 10, 10, 10, 10, 10]).unwrap();

    assert_eq!(is_corner_fast9(&image, 8, 3, 3), true);
}

#[test]
fn test_is_corner_fast9_9_contiguous_lighter_pixels() {
    let image: GrayImage = GrayImage::from_raw(7, 7, vec![
        00, 00, 10, 10, 10, 00, 00,
        00, 10, 00, 00, 00, 10, 00,
        10, 00, 00, 00, 00, 00, 00,
        10, 00, 00, 00, 00, 00, 00,
        10, 00, 00, 00, 00, 00, 00,
        00, 10, 00, 00, 00, 00, 00,
        00, 00, 00, 00, 00, 00, 00]).unwrap();

    assert_eq!(is_corner_fast9(&image, 8, 3, 3), true);
}

#[test]
fn test_is_corner_fast9_12_noncontiguous() {
    let image: GrayImage = GrayImage::from_raw(7, 7, vec![
        10, 10, 00, 00, 00, 10, 10,
        10, 00, 10, 10, 10, 00, 10,
        00, 10, 10, 10, 10, 10, 10,
        00, 10, 10, 10, 10, 10, 10,
        10, 10, 10, 10, 10, 10, 00,
        10, 00, 10, 10, 10, 10, 10,
        10, 10, 00, 00, 00, 10, 10]).unwrap();

    assert_eq!(is_corner_fast9(&image, 8, 3, 3), false);
}

#[test]
fn test_corner_score_fast9() {
    // 8 pixels with an intensity diff of 20, then 1 with a diff of 10
    let image: GrayImage = GrayImage::from_raw(7, 7, vec![
        10, 10, 00, 00, 00, 10, 10,
        10, 00, 10, 10, 10, 00, 10,
        00, 10, 10, 10, 10, 10, 10,
        00, 10, 10, 20, 10, 10, 10,
        00, 10, 10, 10, 10, 10, 10,
        10, 10, 10, 10, 10, 10, 10,
        10, 10, 10, 10, 10, 10, 10]).unwrap();

    let score = fast_corner_score(&image, 5, 3, 3, Fast::Nine);
    assert_eq!(score, 9);

    let score = fast_corner_score(&image, 9, 3, 3, Fast::Nine);
    assert_eq!(score, 9);
}

fn circle_with(marked: &[usize]) -> [i16; 16] {
    let mut circle = [0i16; 16];
    for &i in marked {
        circle[i] = 100;
    }
    circle
}

#[test]
fn search_span_finds_a_section_inside_the_array() {
    let circle = circle_with(&[3, 4, 5, 6, 7]);
    assert!(search_span(&circle, 5, |c| *c > 50));
    assert!(!search_span(&circle, 6, |c| *c > 50));
    assert!(has_bright_span(&circle, 5, 50));
    assert!(!has_bright_span(&circle, 6, 50));
}

#[test]
fn search_span_finds_a_section_over_the_end_of_the_array() {
    let circle = circle_with(&[14, 15, 0, 1, 2]);
    assert!(has_bright_span(&circle, 5, 50));
    assert!(!has_bright_span(&circle, 6, 50));
    let circle = circle_with(&[7, 8, 9, 10, 11, 12, 13, 14, 15, 0, 1, 2]);
    assert!(has_bright_span(&circle, 12, 50));
    assert!(!has_bright_span(&circle, 13, 50));
}

#[test]
fn search_span_finds_a_section_that_is_all_that_matches() {
    // twelve pixels match and four in a row do not
    let circle = circle_with(&[4, 5, 6, 7, 8, 9, 10, 11, 12, 13, 14, 15]);
    assert!(has_bright_span(&circle, 12, 50));
    let circle = circle_with(&[0, 1, 2, 3, 4, 5, 6, 7, 8, 9, 10, 11]);
    assert!(has_bright_span(&circle, 12, 50));
}

#[test]
fn search_span_of_a_broken_section_fails() {
    let circle = circle_with(&[0, 1, 2, 3, 5, 6, 7, 8, 9]);
    assert!(!has_bright_span(&circle, 9, 50));
    assert!(has_bright_span(&circle, 5, 50));
}

#[test]
fn search_span_at_the_ends_of_the_length() {
    let none = [0i16; 16];
    let all = [100i16; 16];
    assert!(has_bright_span(&none, 0, 50));
    assert!(!has_bright_span(&none, 1, 50));
    assert!(has_bright_span(&all, 16, 50));
    assert!(!has_bright_span(&all, 17, 50));
    assert!(has_bright_span(&all, 0, 50));
}

#[test]
fn has_dark_span_is_strict_in_the_threshold() {
    let mut circle = [10i16; 16];
    for i in 0..9 {
        circle[i] = 5;
    }
    assert!(has_dark_span(&circle, 9, 6));
    assert!(!has_dark_span(&circle, 9, 5));
    assert!(!has_dark_span(&circle, 10, 6));
    assert!(has_bright_span(&circle, 7, 9));
    assert!(!has_bright_span(&circle, 7, 10));
}

#[test]
fn corners_are_found_row_by_row_with_their_scores() {
    let image: GrayImage = GrayImage::from_raw(7, 7, vec![
        10, 10, 00, 00, 00, 10, 10,
        10, 00, 10, 10, 10, 00, 10,
        00, 10, 10, 10, 10, 10, 10,
        00, 10, 10, 10, 10, 10, 10,
        00, 10, 10, 10, 10, 10, 10,
        10, 00, 10, 10, 10, 10, 10,
        10, 10, 00, 00, 00, 10, 10]).unwrap();

    assert_eq!(corners_fast12(&image, 8), vec![Corner::new(3, 3, 9)]);
    assert_eq!(corners_fast9(&image, 8), vec![Corner::new(3, 3, 9)]);
    assert_eq!(corners_fast12(&image, 10), vec![]);
}

#[test]
fn no_corner_where_the_circle_leaves_the_image() {
    let image = GrayImage::from_raw(2, 2, vec![0, 255, 255, 0]).unwrap();
    assert!(!is_corner_fast9(&image, 1, 0, 0));
    assert!(!is_corner_fast12(&image, 1, 1, 1));
    assert!(!is_corner_fast12(&image, 1, 5, 5));
    assert_eq!(corners_fast9(&image, 1), vec![]);
}

#[test]
fn score_of_a_pixel_that_is_no_corner_is_the_threshold() {
    let image = GrayImage::from_raw(7, 7, vec![10; 49]).unwrap();
    assert_eq!(fast_corner_score(&image, 5, 3, 3, Fast::Nine), 5);
    assert_eq!(fast_corner_score(&image, 255, 3, 3, Fast::Twelve), 255);
}

#[test]
fn corner_getters_return_the_fields() {
    let corner = Corner::new(4, 5, 6);
    assert_eq!((corner.x(), corner.y(), corner.score()), (4, 5, 6));
}

#[test]
fn gray_image_needs_one_byte_for_each_pixel() {
    assert!(GrayImage::from_raw(2, 3, vec![0; 5]).is_none());
    assert!(GrayImage::from_raw(2, 3, vec![0; 7]).is_none());
    let image = GrayImage::from_raw(2, 3, vec![1, 2, 3, 4, 5, 6]).unwrap();
    assert_eq!(image.dimensions(), (2, 3));
    assert_eq!((image.width(), image.height()), (2, 3));
    assert_eq!(image.get_pixel(1, 0), 2);
    assert_eq!(image.get_pixel(0, 2), 5);
}

#[test]
fn has_bright_span_agrees_with_trying_every_start() {
    // every circle of marked and unmarked places, at a few lengths
    for pattern in 0u32..(1 << 16) {
        let mut circle = [0i16; 16];
        for i in 0..16 {
            if pattern & (1 << i) != 0 {
                circle[i] = 100;
            }
        }
        for length in [1u8, 5, 9, 12, 16] {
            let expected = (0..16).any(|start| {
                (0..length as usize).all(|d| circle[(start + d) % 16] > 50)
            });
            assert_eq!(has_bright_span(&circle, length, 50), expected);
        }
    }
}
