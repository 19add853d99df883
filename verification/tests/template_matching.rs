use imageproc::definitions::GrayImage;
use imageproc::template_matching::{find_extremes, Extremes, MatchTemplateMethod};

#[test]
fn test_find_extremes() {
    let image = GrayImage::from_raw(4, 2, vec![
        10,  7,  8,  1,
         9, 15,  4,  2]).unwrap();

    let expected = Extremes {
        max_value: 15,
        min_value: 1,
        max_value_location: (1, 1),
        min_value_location: (3, 0),
    };

    assert_eq!(find_extremes(&image), expected);
}

#[test]
fn find_extremes_returns_the_first_of_equal_values() {
    let image = GrayImage::from_raw(3, 2, vec![
        5, 9, 1,
        1, 9, 5]).unwrap();

    let expected = Extremes {
        max_value: 9,
        min_value: 1,
        max_value_location: (1, 0),
        min_value_location: (2, 0),
    };

    assert_eq!(find_extremes(&image), expected);
}

#[test]
fn find_extremes_of_a_single_pixel() {
    let image = GrayImage::from_raw(1, 1, vec![42]).unwrap();
    let extremes = find_extremes(&image);
    assert_eq!((extremes.max_value, extremes.min_value), (42, 42));
    assert_eq!(extremes.max_value_location, (0, 0));
    assert_eq!(extremes.min_value_location, (0, 0));
}

#[test]
fn normalized_methods_normalize() {
    assert!(!MatchTemplateMethod::SumOfSquaredErrors.should_normalize());
    assert!(MatchTemplateMethod::SumOfSquaredErrorsNormalized.should_normalize());
    assert!(!MatchTemplateMethod::CrossCorrelation.should_normalize());
    assert!(MatchTemplateMethod::CrossCorrelationNormalized.should_normalize());
}
