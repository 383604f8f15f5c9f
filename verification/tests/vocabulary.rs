use petektools::gridding::{Conditioning, GridMethod, ResampleMethod, VariogramModel};
use petektools::sampling::{common_len, Correlation};
use petektools::{AlgoError, Interp1dMethod};
use petektools::text::trimmed;

#[test]
fn interpolation_method_names() {
    let cases = [
        ("nearest", Interp1dMethod::Nearest),
        ("closest", Interp1dMethod::Nearest),
        ("nn", Interp1dMethod::Nearest),
        ("previous", Interp1dMethod::Previous),
        ("prev", Interp1dMethod::Previous),
        ("ffill", Interp1dMethod::Previous),
        ("next", Interp1dMethod::Next),
        ("bfill", Interp1dMethod::Next),
        ("linear", Interp1dMethod::Linear),
        ("cubic", Interp1dMethod::CubicNatural),
        ("spline", Interp1dMethod::CubicNatural),
        ("natural", Interp1dMethod::CubicNatural),
        ("natural_cubic", Interp1dMethod::CubicNatural),
        ("cubic_natural", Interp1dMethod::CubicNatural),
    ];
    for (name, method) in cases {
        assert_eq!(Interp1dMethod::parse(name).unwrap(), method, "{name}");
    }
}

#[test]
fn interpolation_method_names_ignore_case_and_surrounding_space() {
    assert_eq!(Interp1dMethod::parse("  LiNeAr\t").unwrap(), Interp1dMethod::Linear);
    assert_eq!(Interp1dMethod::parse("\nNN ").unwrap(), Interp1dMethod::Nearest);
}

#[test]
fn unknown_interpolation_method_is_refused_with_its_key() {
    match Interp1dMethod::parse("  Akima ").err().unwrap() {
        AlgoError::InvalidArgument(m) => assert_eq!(m, "unknown interpolation method 'akima'"),
        other => panic!("{other:?}"),
    }
    assert!(Interp1dMethod::parse("").is_err());
    assert!(Interp1dMethod::parse("line ar").is_err());
}

#[test]
fn conditioning_defaults_to_nearest_node() {
    assert_eq!(Conditioning::default(), Conditioning::NearestNode);
}

#[test]
fn vocabulary_values_compare_by_variant() {
    assert_ne!(GridMethod::Nearest, GridMethod::MinimumCurvature);
    assert_eq!(ResampleMethod::Bilinear, ResampleMethod::Bilinear);
    assert_ne!(VariogramModel::Spherical, VariogramModel::Gaussian);
    assert_ne!(Correlation::Independent, Correlation::Comonotonic);
}

#[test]
fn aggregation_length_is_the_shortest_segment() {
    assert_eq!(common_len(&[]), 0);
    assert_eq!(common_len(&[5, 3, 9]), 3);
    assert_eq!(common_len(&[4, 0, 4]), 0);
    assert_eq!(common_len(&[7]), 7);
}

#[test]
fn trimming_drops_unicode_white_space_as_std_does() {
    let text = "\u{3000}\t a b\u{85}\u{2009}\n";
    let chars: Vec<char> = text.chars().collect();
    assert_eq!(trimmed(&chars, 0, chars.len()), text.trim());
    assert_eq!(trimmed(&chars, 0, chars.len()), "a b");
}
