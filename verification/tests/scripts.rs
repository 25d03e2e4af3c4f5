use fakefont::coverage::LatinCoverage;
use fakefont::scripts::{
    check_axis, parse_latin_coverage, parse_subset, select_scripts, AxisProblem, OtherSubsets,
};

/// The order key of a coordinate, as the library reads coordinates.
fn key(x: f64) -> u64 {
    let x = if x.is_nan() { f64::NAN } else if x == 0.0 { 0.0 } else { x };
    let bits = x.to_bits();
    if bits >> 63 == 0 {
        bits | (1 << 63)
    } else {
        !bits
    }
}

fn check(tag: &str, low: f64, high: f64, default: f64) -> Result<(), AxisProblem> {
    check_axis(tag, key(low), key(high), key(default))
}

#[test]
fn parses_coverage_names() {
    assert!(matches!(parse_latin_coverage("full"), Some(LatinCoverage::Full)));
    assert!(matches!(parse_latin_coverage("core"), Some(LatinCoverage::Core)));
    assert!(matches!(parse_latin_coverage("kernel"), Some(LatinCoverage::Kernel)));
    assert!(parse_latin_coverage("Core").is_none());
    assert!(parse_latin_coverage("").is_none());
}

#[test]
fn parses_subset_names() {
    assert!(matches!(parse_subset("greek"), Some(OtherSubsets::Greek)));
    assert!(matches!(parse_subset("cyrillic"), Some(OtherSubsets::Cyrillic)));
    assert!(matches!(parse_subset("cjk-basic"), Some(OtherSubsets::CjkBasic)));
    assert!(matches!(parse_subset("devanagari"), Some(OtherSubsets::Devanagari)));
    assert!(matches!(parse_subset("bengali"), Some(OtherSubsets::Bengali)));
    assert!(matches!(parse_subset("standard-arabic"), Some(OtherSubsets::StandardArabic)));
    assert!(matches!(parse_subset("farsi-urdu"), Some(OtherSubsets::UrduFarsi)));
    assert!(matches!(parse_subset("thai"), Some(OtherSubsets::Thai)));
    assert!(matches!(parse_subset("tamil"), Some(OtherSubsets::Tamil)));
    assert!(matches!(parse_subset("telugu"), Some(OtherSubsets::Telugu)));
    assert!(matches!(parse_subset("kannada"), Some(OtherSubsets::Kannada)));

    // The names are the page's lowercase tile values, and nothing else.
    for wrong in ["", "Greek", "farsi", "cjkbasic", "arabic", "devanagari "] {
        assert!(parse_subset(wrong).is_none(), "{wrong:?} should not parse");
    }
}

#[test]
fn accepts_well_formed_axes() {
    assert!(check("slnt", -15.0, 15.0, 0.0).is_ok());
    assert!(check("opsz", 6.0, 144.0, 12.0).is_ok());
    // A default sitting on either end of the range is fine.
    assert!(check("XXXX", 0.0, 100.0, 0.0).is_ok());
    assert!(check("XXXX", 0.0, 100.0, 100.0).is_ok());
}

#[test]
fn rejects_axes_the_library_would_panic_on() {
    // Too short / too long / not printable ASCII / not ASCII at all.
    assert!(check("abc", 0.0, 10.0, 5.0).is_err());
    assert!(check("abcde", 0.0, 10.0, 5.0).is_err());
    assert!(check("ab\tc", 0.0, 10.0, 5.0).is_err());
    assert!(check("abçd", 0.0, 10.0, 5.0).is_err());
    assert!(check("", 0.0, 10.0, 5.0).is_err());
    // Numeric problems.
    assert!(check("slnt", 15.0, -15.0, 0.0).is_err());
    assert!(check("slnt", 0.0, 0.0, 0.0).is_err());
    assert!(check("slnt", 0.0, 10.0, 11.0).is_err());
    assert!(check("slnt", 0.0, 10.0, f64::NAN).is_err());
    assert!(check("slnt", f64::NEG_INFINITY, 10.0, 0.0).is_err());
}

#[test]
fn axis_problems_are_named() {
    assert_eq!(check("abc", 0.0, 10.0, 5.0), Err(AxisProblem::BadTag));
    assert_eq!(check("slnt", 0.0, f64::INFINITY, 5.0), Err(AxisProblem::NotFinite));
    assert_eq!(check("slnt", 10.0, 0.0, 5.0), Err(AxisProblem::LowNotBelowHigh));
    assert_eq!(check("slnt", -10.0, -5.0, -11.0), Err(AxisProblem::DefaultOutside));
    assert_eq!(check("slnt", -10.0, -5.0, -7.5), Ok(()));
    assert_eq!(check("slnt", -0.0, 1.0, 0.0), Ok(()));
}

#[test]
fn tags_the_library_refuses_are_bad() {
    // Printable, but not a tag: a leading space, or a letter after a space.
    assert_eq!(check(" abc", 0.0, 10.0, 5.0), Err(AxisProblem::BadTag));
    assert_eq!(check("a bc", 0.0, 10.0, 5.0), Err(AxisProblem::BadTag));
    assert_eq!(check("ab~\x7f", 0.0, 10.0, 5.0), Err(AxisProblem::BadTag));
    // Trailing spaces are part of a tag.
    assert_eq!(check("ab  ", 0.0, 10.0, 5.0), Ok(()));
    assert_eq!(check("a   ", 0.0, 10.0, 5.0), Ok(()));
}

#[test]
fn selection_ignores_order_and_repeats() {
    let a = select_scripts(&vec![OtherSubsets::Thai, OtherSubsets::Greek, OtherSubsets::Devanagari, OtherSubsets::Thai]);
    let b = select_scripts(&vec![OtherSubsets::Devanagari, OtherSubsets::Thai, OtherSubsets::Greek]);
    assert!(a.greek && b.greek);
    assert!(!a.cyrillic && !b.cyrillic);
    assert_eq!(a.added, vec![OtherSubsets::Devanagari, OtherSubsets::Thai]);
    assert_eq!(a.added, b.added);
    let none = select_scripts(&vec![]);
    assert!(!none.greek && !none.cyrillic && none.added.is_empty());
}
