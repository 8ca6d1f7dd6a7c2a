use accept_language::binary64::{rank_of, INFINITY, ONE, SIGN};
use accept_language::language::Language;
use std::cmp::Ordering;

#[test]
fn it_creates_a_new_language_from_a_string() {
    let language = Language::new("en-US;q=0.7");

    assert_eq!(language, Language { name: String::from("en-US"), quality: 0.7f64.to_bits() });
    assert_eq!(language.name, "en-US");
    assert_eq!(f64::from_bits(language.quality), 0.7);
}

#[test]
fn it_creates_a_new_language_from_a_string_with_a_default_quality() {
    let language = Language::new("en-US");

    assert_eq!(language, Language { name: String::from("en-US"), quality: 1.0f64.to_bits() });
    assert_eq!(language.name, "en-US");
    assert_eq!(f64::from_bits(language.quality), 1.0);
    assert_eq!(language.quality, ONE);
}

#[test]
fn it_parses_quality() {
    let quality = Language::quality_with_default("q=0.5");

    assert_eq!(f64::from_bits(quality), 0.5)
}

#[test]
fn it_parses_an_invalid_quality() {
    let quality = Language::quality_with_default("q=yolo");

    assert_eq!(f64::from_bits(quality), 0.0)
}

#[test]
fn a_short_parameter_gives_the_weight_zero() {
    assert_eq!(Language::quality_with_default(""), 0);
    assert_eq!(Language::quality_with_default("q"), 0);
    assert_eq!(Language::quality_with_default("q="), 0);
    assert_eq!(Language::new("en;").quality, 0);
    assert_eq!(Language::new("en;").name, "en");
}

#[test]
fn the_name_ends_at_the_first_semicolon() {
    let language = Language::new("en;q=0.5;q=0.9");
    assert_eq!(language.name, "en");
    assert_eq!(language.quality, 0);
    let language = Language::new(";q=0.25");
    assert_eq!(language.name, "");
    assert_eq!(f64::from_bits(language.quality), 0.25);
    let language = Language::new("");
    assert_eq!(language.name, "");
    assert_eq!(language.quality, ONE);
}

#[test]
fn languages_are_ordered_by_falling_weight() {
    let high = Language::new("a;q=0.9");
    let low = Language::new("b;q=0.1");
    let same = Language::new("c;q=0.90");
    assert_eq!(high.cmp(&low), Ordering::Less);
    assert_eq!(low.cmp(&high), Ordering::Greater);
    assert_eq!(high.cmp(&same), Ordering::Equal);
    assert_eq!(high.partial_cmp(&low), Some(Ordering::Less));
    assert!(high < low);
    assert!(high == same);
    assert!(high != low);
}

#[test]
fn rank_follows_the_numbers() {
    let numbers = [
        f64::NEG_INFINITY,
        -1.0e300,
        -2.5,
        -1.0,
        -1.0e-320,
        0.0,
        5.0e-324,
        1.0e-310,
        0.1,
        1.0,
        1.0000000000000002,
        3.0e200,
        f64::MAX,
        f64::INFINITY,
    ];
    for i in 0..numbers.len() {
        for j in 0..numbers.len() {
            let a = rank_of(numbers[i].to_bits());
            let b = rank_of(numbers[j].to_bits());
            assert_eq!(a < b, numbers[i] < numbers[j]);
            assert_eq!(a == b, numbers[i] == numbers[j]);
        }
    }
    assert_eq!(rank_of(0), 0);
    assert_eq!(rank_of(SIGN), 0);
    assert_eq!(rank_of(f64::NAN.to_bits()), 0);
    assert_eq!(rank_of(INFINITY + 1), 0);
    assert_eq!(rank_of(SIGN + INFINITY + 1), 0);
    assert_eq!(rank_of(SIGN + 1), -1);
    assert_eq!(rank_of(ONE), 0x3FF0_0000_0000_0000);
}
