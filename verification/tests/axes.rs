use fakefont::axes::{axis_tag, dedup_user_runs, sorted_unique};

/// The order key of a coordinate, as the library reads coordinates.
fn key(x: f64) -> u64 {
    let x = if x.is_nan() { f64::NAN } else if x == 0.0 { 0.0 } else { x };
    let bits = x.to_bits();
    if bits >> 63 == 0 {
        bits | (1 << 63)
    } else {
        !bits
    }
}

fn pair(u: f64, d: f64) -> (u64, u64) {
    (key(u), key(d))
}

#[test]
fn tags_are_padded_and_cut() {
    assert_eq!(axis_tag("slnt"), Some(u32::from_be_bytes(*b"slnt")));
    assert_eq!(axis_tag("wd"), Some(u32::from_be_bytes(*b"wd  ")));
    assert_eq!(axis_tag("abcde"), Some(u32::from_be_bytes(*b"abcd")));
    assert_eq!(axis_tag("GRAD"), Some(u32::from_be_bytes(*b"GRAD")));
}

#[test]
fn bad_tags_are_refused() {
    assert_eq!(axis_tag(""), None);
    assert_eq!(axis_tag(" abc"), None);
    assert_eq!(axis_tag("a bc"), None);
    assert_eq!(axis_tag("é"), None);
    assert_eq!(axis_tag("abé"), None);
    assert_eq!(axis_tag("ab\tc"), None);
    // A multi-byte character after the fourth byte is cut away.
    assert_eq!(axis_tag("abcdé"), Some(u32::from_be_bytes(*b"abcd")));
}

#[test]
fn weight_maps_are_sorted_without_repeats() {
    // The map of a weight axis from 100 to 400.
    let entries = vec![pair(100.0, 100.0), pair(400.0, 400.0), pair(400.0, 400.0), pair(250.0, 300.0)];
    assert_eq!(
        sorted_unique(&entries),
        vec![pair(100.0, 100.0), pair(250.0, 300.0), pair(400.0, 400.0)]
    );
    // From 100 to 700.
    let entries = vec![
        pair(100.0, 100.0),
        pair(700.0, 700.0),
        pair(400.0, 400.0),
        pair(250.0, 300.0),
        pair(550.0, 500.0),
    ];
    assert_eq!(
        sorted_unique(&entries),
        vec![pair(100.0, 100.0), pair(250.0, 300.0), pair(400.0, 400.0), pair(550.0, 500.0), pair(700.0, 700.0)]
    );
    // Negative coordinates come first, the same user value sorts by design value.
    let entries = vec![pair(0.0, 5.0), pair(-3.0, 1.0), pair(0.0, -5.0)];
    assert_eq!(sorted_unique(&entries), vec![pair(-3.0, 1.0), pair(0.0, -5.0), pair(0.0, 5.0)]);
}

#[test]
fn arbitrary_maps_drop_repeated_user_values() {
    let entries = vec![pair(0.0, 0.0), pair(0.0, 0.0), pair(10.0, 10.0)];
    assert_eq!(dedup_user_runs(&entries), vec![pair(0.0, 0.0), pair(10.0, 10.0)]);
    let entries = vec![pair(-15.0, -15.0), pair(0.0, 0.0), pair(15.0, 15.0)];
    assert_eq!(dedup_user_runs(&entries), entries);
    // Only neighbours collapse, and a NaN equals nothing.
    let entries = vec![pair(1.0, 1.0), pair(2.0, 2.0), pair(1.0, 1.0)];
    assert_eq!(dedup_user_runs(&entries), entries);
    let entries = vec![pair(f64::NAN, 0.0), pair(f64::NAN, 0.0)];
    assert_eq!(dedup_user_runs(&entries), entries);
    assert_eq!(dedup_user_runs(&vec![pair(-0.0, 1.0), pair(0.0, 2.0)]), vec![pair(0.0, 1.0)]);
}
