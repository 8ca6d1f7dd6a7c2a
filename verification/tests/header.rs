use accept_language::{intersection, parse};

const MOCK_ACCEPT_LANGUAGE: &str = "en-US, de;q=0.7, jp;q=0.1";

fn strings(names: &[&str]) -> Vec<String> {
    names.iter().map(|name| String::from(*name)).collect()
}

#[test]
fn it_parses_a_valid_accept_language_header() {
    let user_languages = parse(MOCK_ACCEPT_LANGUAGE);

    assert_eq!(user_languages, vec![String::from("en-US"), String::from("de"), String::from("jp")])
}

#[test]
fn it_parses_an_empty_accept_language_header() {
    let user_languages = parse("");

    assert_eq!(user_languages.len(), 0)
}

#[test]
fn it_sorts_languages_by_quality() {
    let user_languages = parse("en-US, de;q=0.1, jp;q=0.7");

    assert_eq!(user_languages, vec![String::from("en-US"), String::from("jp"), String::from("de")])
}

#[test]
fn it_returns_language_intersections() {
    let common_languages = intersection(MOCK_ACCEPT_LANGUAGE, vec!["en-US", "jp"]);

    assert_eq!(common_languages, vec![String::from("en-US"), String::from("jp")])
}

#[test]
fn it_returns_an_empty_array_when_no_intersections() {
    let common_languages = intersection(MOCK_ACCEPT_LANGUAGE, vec!["fr", "en-GB"]);

    assert_eq!(common_languages.len(), 0)
}

#[test]
fn spaces_do_not_matter() {
    assert_eq!(parse("en-US, en-GB;q=0.5"), parse("en-US,en-GB;q=0.5"));
    assert_eq!(parse("en-US, en-GB;q=0.5"), strings(&["en-US", "en-GB"]));
    assert_eq!(parse(" e n - U S ,  e n-GB ; q = 0 . 5 "), strings(&["en-US", "en-GB"]));
    assert_eq!(parse("   "), strings(&[]));
}

#[test]
fn segments_without_a_name_give_no_language() {
    assert_eq!(parse(","), strings(&[]));
    assert_eq!(parse(",,en,,"), strings(&["en"]));
    assert_eq!(parse(";q=0.9, de;q=0.1"), strings(&["de"]));
    assert_eq!(parse("en,"), strings(&["en"]));
}

#[test]
fn languages_of_one_weight_keep_their_order() {
    assert_eq!(parse("a, b, c"), strings(&["a", "b", "c"]));
    assert_eq!(parse("c;q=0.5, a;q=0.5, b;q=0.5"), strings(&["c", "a", "b"]));
    assert_eq!(
        parse("z;q=0.1, y;q=0.9, x;q=0.1, w;q=0.9, v"),
        strings(&["v", "y", "w", "z", "x"])
    );
    assert_eq!(parse("a;q=0, b;q=-0, c;q=0.0"), strings(&["a", "b", "c"]));
}

#[test]
fn a_weight_that_is_no_number_counts_as_zero() {
    assert_eq!(parse("de;q=yolo, en;q=0.1"), strings(&["en", "de"]));
    assert_eq!(parse("de;q=yolo, en;q=-1"), strings(&["de", "en"]));
    assert_eq!(parse("de;, en;q=0.001"), strings(&["en", "de"]));
    assert_eq!(parse("de;q, en;q=0.001"), strings(&["en", "de"]));
    assert_eq!(parse("de;q=, en;q=0.001"), strings(&["en", "de"]));
    assert_eq!(parse("de;q=nan, en;q=0.001, fr;q=-0.5"), strings(&["en", "de", "fr"]));
    assert_eq!(parse("de;q=0.5;x=1, en;q=0.001"), strings(&["en", "de"]));
}

#[test]
fn the_first_two_characters_of_a_parameter_are_skipped() {
    assert_eq!(parse("de;xx0.2, en;q=0.1"), strings(&["de", "en"]));
    assert_eq!(parse("de;0.05, en;q=0.1"), strings(&["de", "en"]));
    assert_eq!(parse("de;q=0.05, en;q=0.1"), strings(&["en", "de"]));
    assert_eq!(parse("de;=q0.9, en;q=0.1"), strings(&["de", "en"]));
}

#[test]
fn weights_are_compared_as_numbers() {
    assert_eq!(
        parse("a;q=1e-1, b;q=0.2, c;q=.3, d;q=4E-1, e;q=+0.5, f;q=6.e-1"),
        strings(&["f", "e", "d", "c", "b", "a"])
    );
    assert_eq!(
        parse("a;q=inf, b;q=2, c;q=-inf, d;q=1e999, e;q=-Infinity, f"),
        strings(&["a", "d", "b", "f", "c", "e"])
    );
    assert_eq!(parse("a;q=0.3, b;q=0.1, c;q=0.2"), strings(&["a", "c", "b"]));
    assert_eq!(
        parse("a;q=0.1, b;q=0.1000000000000000055511151231257827, c;q=0.10000000000000002"),
        strings(&["c", "a", "b"])
    );
}

#[test]
fn intersection_keeps_the_order_of_preference() {
    assert_eq!(
        intersection("en-US, de;q=0.1, jp;q=0.7", vec!["de", "jp", "en-US"]),
        strings(&["en-US", "jp", "de"])
    );
    assert_eq!(intersection("en-US, de;q=0.7", vec!["en", "DE"]), strings(&[]));
    assert_eq!(intersection("en, en, de", vec!["en"]), strings(&["en", "en"]));
    assert_eq!(intersection("", vec!["en"]), strings(&[]));
    assert_eq!(intersection("en", vec![]), strings(&[]));
}

#[test]
fn intersecting_twice_changes_nothing() {
    let supported = vec!["jp", "en-US", "fr"];
    let once = intersection("en-US, de;q=0.7, jp;q=0.1, fr;q=0.4", supported.clone());
    assert_eq!(once, strings(&["en-US", "fr", "jp"]));
    let twice = intersection(&once.join(","), supported);
    assert_eq!(twice, once);
}
